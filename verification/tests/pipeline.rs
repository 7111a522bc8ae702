use tplgen::discover::{register_file_root, register_walk, Registry};
use tplgen::dispatch::{indent_text, output_path, plan_renders};
use tplgen::value::{build_context, Val};

fn walk(reg: &mut Registry, root: &str, entries: &[&str], suffix: &str) {
    let owned: Vec<String> = entries.iter().map(|e| e.to_string()).collect();
    register_walk(reg, root, &owned, suffix, '/');
}

fn pairs(reg: &Registry) -> Vec<(String, String)> {
    let mut out = Vec::new();
    let mut i: usize = 0;
    while i < reg.len() {
        out.push(reg.get(i));
        i += 1;
    }
    out
}

#[test]
fn walk_registers_surviving_entries() {
    let mut reg = Registry::new();
    walk(
        &mut reg,
        "root",
        &["root/a/b.txt.hbs", "root/~swap.hbs", "root/#buf.hbs", "root/notes.txt"],
        ".hbs",
    );
    assert_eq!(pairs(&reg), vec![("a/b.txt".to_string(), "root/a/b.txt.hbs".to_string())]);
}

#[test]
fn explicit_file_registered_regardless_of_suffix() {
    let mut reg = Registry::new();
    register_file_root(&mut reg, "dir/notes.txt", '/');
    assert_eq!(pairs(&reg), vec![("notes".to_string(), "dir/notes.txt".to_string())]);
}

#[test]
fn later_registration_of_same_name_wins() {
    let mut reg = Registry::new();
    walk(&mut reg, "r1", &["r1/greet.hbs"], ".hbs");
    walk(&mut reg, "r2", &["r2/greet.hbs"], ".hbs");
    assert_eq!(pairs(&reg), vec![("greet".to_string(), "r2/greet.hbs".to_string())]);
}

#[test]
fn insert_overwrites_value_in_place() {
    let mut reg = Registry::new();
    reg.insert("n".to_string(), "p1".to_string());
    reg.insert("other".to_string(), "q".to_string());
    reg.insert("n".to_string(), "p2".to_string());
    assert_eq!(
        pairs(&reg),
        vec![("n".to_string(), "p2".to_string()), ("other".to_string(), "q".to_string())]
    );
}

#[test]
fn output_paths_join_with_separator() {
    assert_eq!(output_path("out", "a/b", '/'), "out/a/b");
    assert_eq!(output_path("out/", "a", '/'), "out/a");
    assert_eq!(output_path("", "a", '/'), "a");
}

#[test]
fn plan_covers_registry_in_order() {
    let mut reg = Registry::new();
    walk(&mut reg, "root", &["root/x.hbs", "root/sub/y.hbs"], ".hbs");
    let jobs = plan_renders(&reg, "out", '/');
    assert_eq!(jobs.len(), 2);
    assert_eq!(jobs[0].name, "x");
    assert_eq!(jobs[0].source, "root/x.hbs");
    assert_eq!(jobs[0].out_path, "out/x");
    assert_eq!(jobs[1].name, "sub/y");
    assert_eq!(jobs[1].out_path, "out/sub/y");
}

#[test]
fn indentation_follows_every_line_break() {
    assert_eq!(indent_text("a\nb\nc", 2), "a\n  b\n  c");
    assert_eq!(indent_text("plain", 4), "plain");
    assert_eq!(indent_text("", 3), "");
    assert_eq!(indent_text("x\n", 1), "x\n ");
}

fn val_to_json(v: &Val) -> serde_json::Value {
    match v {
        Val::Null => serde_json::Value::Null,
        Val::Bool(b) => serde_json::Value::Bool(*b),
        Val::Num(s) => match s.parse::<serde_json::Number>() {
            Ok(n) => serde_json::Value::Number(n),
            Err(_) => serde_json::Value::String(s.clone()),
        },
        Val::Str(s) => serde_json::Value::String(s.clone()),
        Val::Arr(items) => serde_json::Value::Array(items.iter().map(val_to_json).collect()),
        Val::Obj(fields) => {
            let mut m = serde_json::Map::new();
            for (k, v) in fields {
                m.insert(k.clone(), val_to_json(v));
            }
            serde_json::Value::Object(m)
        }
    }
}

#[test]
fn end_to_end_discovery_merge_render() {
    let mut reg = Registry::new();
    walk(&mut reg, "r1", &["r1/greet.hbs"], ".hbs");
    walk(&mut reg, "r2", &["r2/other.hbs"], ".hbs");
    let jobs = plan_renders(&reg, "out", '/');
    assert_eq!(jobs.len(), 2);
    assert_eq!(jobs[0].name, "greet");
    assert_eq!(jobs[0].out_path, "out/greet");

    let files = vec![Some(Val::Obj(vec![(
        "name".to_string(),
        Val::Str("world".to_string()),
    )]))];
    let (ctx, _) = build_context(&vec![], &files, false, false);
    let data = val_to_json(&ctx);

    let mut engine = handlebars::Handlebars::new();
    engine.register_template_string("greet", "{{name}}").unwrap();
    let mut sink: Vec<u8> = Vec::new();
    engine.render_to_write("greet", &data, &mut sink).unwrap();
    assert_eq!(String::from_utf8(sink).unwrap(), "world");
}
