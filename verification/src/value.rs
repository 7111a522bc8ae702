use vstd::prelude::*;
use crate::discover::{base_name_of, last_at, base_name, last_index, push_char};

verus! {

/// Mathematical model of a data value: the tree shape that rendering
/// contexts are made of. Mappings are ordered sequences of key/value pairs.
pub enum SpecVal {
    Null,
    Bool(bool),
    Num(Seq<char>),
    Str(Seq<char>),
    Arr(Seq<SpecVal>),
    Obj(Seq<(Seq<char>, SpecVal)>),
}

/// One key/value pair of a modelled mapping.
pub type SpecField = (Seq<char>, SpecVal);

/// Whether some pair of `fs` carries the key `k`.
pub open spec fn has_key(fs: Seq<SpecField>, k: Seq<char>) -> bool {
    exists|i: int| 0 <= i < fs.len() && fs[i].0 == k
}

/// An index of `fs` that carries the key `k` (the only one when keys are
/// distinct).
pub open spec fn key_at(fs: Seq<SpecField>, k: Seq<char>) -> int {
    choose|i: int| 0 <= i < fs.len() && fs[i].0 == k
}

/// The value stored under `k`.
pub open spec fn field_val(fs: Seq<SpecField>, k: Seq<char>) -> SpecVal {
    fs[key_at(fs, k)].1
}

/// No two pairs of `fs` share a key.
pub open spec fn uniq_keys(fs: Seq<SpecField>) -> bool {
    forall|i: int, j: int| 0 <= i < j < fs.len() ==> fs[i].0 != fs[j].0
}

/// Well-formedness: every mapping in the tree has distinct keys.
pub open spec fn wf(v: SpecVal) -> bool
    decreases v,
{
    match v {
        SpecVal::Arr(items) => forall|i: int| 0 <= i < items.len() ==> wf(#[trigger] items[i]),
        SpecVal::Obj(fs) => uniq_keys(fs) && forall|i: int|
            0 <= i < fs.len() ==> wf(#[trigger] fs[i].1),
        _ => true,
    }
}

/// Deep merge of `b` into `a`: two mappings merge key by key, any other
/// combination is wholly replaced by `b`.
pub open spec fn merged(a: SpecVal, b: SpecVal) -> SpecVal
    decreases b, 1int,
{
    match (a, b) {
        (SpecVal::Obj(af), SpecVal::Obj(bf)) => SpecVal::Obj(merged_fields(af, bf)),
        (_, _) => b,
    }
}

/// Merging the pairs of `bf` into `af`, left to right: a key already present
/// keeps its position and its value is deep-merged, a new key is appended.
pub open spec fn merged_fields(af: Seq<SpecField>, bf: Seq<SpecField>) -> Seq<SpecField>
    decreases bf, 0int,
{
    if bf.len() == 0 {
        af
    } else {
        merged_fields(step_fields(af, bf[0]), bf.subrange(1, bf.len() as int))
    }
}

/// Merging one pair `f` into `af`: a present key keeps its position and its
/// value is deep-merged, an absent key is appended.
pub open spec fn step_fields(af: Seq<SpecField>, f: SpecField) -> Seq<SpecField>
    decreases f, 0int,
{
    if has_key(af, f.0) {
        af.update(key_at(af, f.0), (f.0, merged(af[key_at(af, f.0)].1, f.1)))
    } else {
        af.push(f)
    }
}

/// A data value as held at run time: what a parsed JSON or YAML document, or
/// the environment seed, is handed over as. Numbers are carried by their
/// textual form, which the merge never inspects.
#[derive(Debug, PartialEq, Eq)]
pub enum Val {
    Null,
    Bool(bool),
    Num(String),
    Str(String),
    Arr(Vec<Val>),
    Obj(Vec<(String, Val)>),
}

/// The model of a run-time value.
pub open spec fn val_view(v: Val) -> SpecVal
    decreases v, 1int,
{
    match v {
        Val::Null => SpecVal::Null,
        Val::Bool(b) => SpecVal::Bool(b),
        Val::Num(s) => SpecVal::Num(s@),
        Val::Str(s) => SpecVal::Str(s@),
        Val::Arr(items) => SpecVal::Arr(arr_view(items@)),
        Val::Obj(fields) => SpecVal::Obj(fields_view(fields@)),
    }
}

/// The models of the elements of a sequence of values.
pub open spec fn arr_view(items: Seq<Val>) -> Seq<SpecVal>
    decreases items, 0int,
{
    if items.len() == 0 {
        Seq::empty()
    } else {
        seq![val_view(items[0])] + arr_view(items.subrange(1, items.len() as int))
    }
}

/// The models of the pairs of a run-time mapping.
pub open spec fn fields_view(fields: Seq<(String, Val)>) -> Seq<SpecField>
    decreases fields, 0int,
{
    if fields.len() == 0 {
        Seq::empty()
    } else {
        seq![(fields[0].0@, val_view(fields[0].1))] + fields_view(
            fields.subrange(1, fields.len() as int),
        )
    }
}

impl View for Val {
    type V = SpecVal;

    open spec fn view(&self) -> SpecVal {
        val_view(*self)
    }
}

/// `arr_view` maps the sequence element by element.
pub proof fn lemma_arr_view(items: Seq<Val>)
    ensures
        arr_view(items).len() == items.len(),
        forall|i: int|
            0 <= i < items.len() ==> #[trigger] arr_view(items)[i] == val_view(items[i]),
    decreases items,
{
    if items.len() > 0 {
        let rest = items.subrange(1, items.len() as int);
        lemma_arr_view(rest);
        assert forall|i: int| 0 <= i < items.len() implies #[trigger] arr_view(items)[i]
            == val_view(items[i]) by {
            if i > 0 {
                assert(rest[i - 1] == items[i]);
            }
        }
    }
}

/// `fields_view` maps the pairs element by element.
pub proof fn lemma_fields_view(fields: Seq<(String, Val)>)
    ensures
        fields_view(fields).len() == fields.len(),
        forall|i: int|
            0 <= i < fields.len() ==> #[trigger] fields_view(fields)[i] == (
            fields[i].0@,
            val_view(fields[i].1),
            ),
    decreases fields,
{
    if fields.len() > 0 {
        let rest = fields.subrange(1, fields.len() as int);
        lemma_fields_view(rest);
        assert forall|i: int| 0 <= i < fields.len() implies #[trigger] fields_view(fields)[i] == (
        fields[i].0@,
        val_view(fields[i].1),
        ) by {
            if i > 0 {
                assert(rest[i - 1] == fields[i]);
            }
        }
    }
}

/// Distinct keys, and well-formed values, survive one merge step; the step
/// touches no key but the one of `f`.
pub proof fn lemma_step_wf(af: Seq<SpecField>, f: SpecField)
    requires
        uniq_keys(af),
        forall|i: int| 0 <= i < af.len() ==> wf(#[trigger] af[i].1),
        wf(f.1),
    ensures
        uniq_keys(step_fields(af, f)),
        forall|i: int| 0 <= i < step_fields(af, f).len() ==> wf(#[trigger] step_fields(af, f)[i].1),
        forall|i: int| 0 <= i < step_fields(af, f).len() ==> step_fields(af, f)[i].0 == if i
            < af.len() {
            af[i].0
        } else {
            f.0
        },
        step_fields(af, f).len() == if has_key(af, f.0) {
            af.len()
        } else {
            af.len() + 1
        },
    decreases f, 1int,
{
    if has_key(af, f.0) {
        let i = key_at(af, f.0);
        assert(0 <= i < af.len() && af[i].0 == f.0);
        lemma_merged_wf(af[i].1, f.1);
    }
}

/// Deep-merging two well-formed values yields a well-formed value.
pub proof fn lemma_merged_wf(a: SpecVal, b: SpecVal)
    requires
        wf(a),
        wf(b),
    ensures
        wf(merged(a, b)),
    decreases b, 2int,
{
    match (a, b) {
        (SpecVal::Obj(af), SpecVal::Obj(bf)) => {
            lemma_merged_fields_wf(af, bf);
        }
        _ => {}
    }
}

/// Distinct keys and well-formed values survive a whole merge of field lists.
pub proof fn lemma_merged_fields_wf(af: Seq<SpecField>, bf: Seq<SpecField>)
    requires
        uniq_keys(af),
        forall|i: int| 0 <= i < af.len() ==> wf(#[trigger] af[i].1),
        forall|i: int| 0 <= i < bf.len() ==> wf(#[trigger] bf[i].1),
    ensures
        uniq_keys(merged_fields(af, bf)),
        forall|i: int|
            0 <= i < merged_fields(af, bf).len() ==> wf(#[trigger] merged_fields(af, bf)[i].1),
    decreases bf, 1int,
{
    if bf.len() > 0 {
        lemma_step_wf(af, bf[0]);
        let rest = bf.subrange(1, bf.len() as int);
        assert(forall|i: int| 0 <= i < rest.len() ==> rest[i] == bf[i + 1]);
        lemma_merged_fields_wf(step_fields(af, bf[0]), rest);
    }
}

/// Deep copy of a value; the copy has the same model.
#[verifier::loop_isolation(false)]
pub fn clone_val(v: &Val) -> (r: Val)
    ensures
        r@ == v@,
    decreases *v,
{
    match v {
        Val::Null => Val::Null,
        Val::Bool(b) => Val::Bool(*b),
        Val::Num(s) => Val::Num(s.clone()),
        Val::Str(s) => Val::Str(s.clone()),
        Val::Arr(items) => {
            let mut out: Vec<Val> = Vec::new();
            let n = items.len();
            let mut i: usize = 0;
            while i < n
                invariant
                    n == items@.len(),
                    i <= n,
                    out@.len() == i,
                    forall|j: int|
                        0 <= j < i ==> val_view(#[trigger] out@[j]) == val_view(items@[j]),
                decreases n - i,
            {
                proof {
                    assert(decreases_to!(*v => v->Arr_0));
                    assert(decreases_to!(*items => items@[i as int]));
                }
                out.push(clone_val(&items[i]));
                i += 1;
            }
            proof {
                lemma_arr_view(out@);
                lemma_arr_view(items@);
                assert forall|t: int| 0 <= t < n implies arr_view(out@)[t] == arr_view(items@)[t] by {
                    assert(val_view(out@[t]) == val_view(items@[t]));
                }
                assert(arr_view(out@) =~= arr_view(items@));
            }
            Val::Arr(out)
        }
        Val::Obj(fields) => {
            let mut out: Vec<(String, Val)> = Vec::new();
            let n = fields.len();
            let mut i: usize = 0;
            while i < n
                invariant
                    n == fields@.len(),
                    i <= n,
                    out@.len() == i,
                    forall|j: int| 0 <= j < i ==> (#[trigger] out@[j]).0@ == fields@[j].0@,
                    forall|j: int|
                        0 <= j < i ==> val_view((#[trigger] out@[j]).1) == val_view(fields@[j].1),
                decreases n - i,
            {
                proof {
                    assert(decreases_to!(*v => v->Obj_0));
                    assert(decreases_to!(*fields => fields@[i as int]));
                    assert(decreases_to!(fields@[i as int] => fields@[i as int].1));
                }
                out.push((fields[i].0.clone(), clone_val(&fields[i].1)));
                i += 1;
            }
            proof {
                lemma_fields_view(out@);
                lemma_fields_view(fields@);
                assert forall|t: int|
                    0 <= t < n implies fields_view(out@)[t] == fields_view(fields@)[t] by {
                    assert(out@[t].0@ == fields@[t].0@);
                    assert(val_view(out@[t].1) == val_view(fields@[t].1));
                }
                assert(fields_view(out@) =~= fields_view(fields@));
            }
            Val::Obj(out)
        }
    }
}

/// Position of the first pair of `fs` whose key equals `k`, if any.
fn find_key(fs: &Vec<(String, Val)>, k: &String) -> (r: Option<usize>)
    ensures
        match r {
            Some(i) => i < fs@.len() && fs@[i as int].0@ == k@ && forall|j: int|
                0 <= j < i ==> fs@[j].0@ != k@,
            None => forall|j: int| 0 <= j < fs@.len() ==> fs@[j].0@ != k@,
        },
{
    let mut i: usize = 0;
    while i < fs.len()
        invariant
            i <= fs@.len(),
            forall|j: int| 0 <= j < i ==> fs@[j].0@ != k@,
        decreases fs@.len() - i,
    {
        if fs[i].0.eq(k) {
            return Some(i);
        }
        i += 1;
    }
    None
}

/// Deep-merge `b` into `a`: two mappings merge key by key, with keys already
/// present keeping their position and new keys appended in the order they
/// come in `b`; any other combination is wholly replaced by a copy of `b`.
#[verifier::loop_isolation(false)]
pub fn merge(a: Val, b: &Val) -> (r: Val)
    requires
        wf(a@),
        wf(b@),
    ensures
        r@ == merged(a@, b@),
        wf(r@),
    decreases *b,
{
    let ghost av = a@;
    match (a, b) {
        (Val::Obj(mut af), Val::Obj(bf)) => {
            let ghost af0 = fields_view(af@);
            let ghost be = fields_view(bf@);
            proof {
                lemma_fields_view(bf@);
                lemma_fields_view(af@);
                assert(av == SpecVal::Obj(af0));
                assert(be.subrange(0, be.len() as int) =~= be);
            }
            let n = bf.len();
            let mut j: usize = 0;
            while j < n
                invariant
                    n == bf@.len(),
                    j <= n,
                    be == fields_view(bf@),
                    be.len() == n,
                    forall|t: int| 0 <= t < n ==> #[trigger] be[t] == (bf@[t].0@, val_view(bf@[t].1)),
                    forall|t: int| 0 <= t < n ==> wf(#[trigger] be[t].1),
                    uniq_keys(fields_view(af@)),
                    fields_view(af@).len() == af@.len(),
                    forall|t: int|
                        0 <= t < af@.len() ==> wf(#[trigger] fields_view(af@)[t].1),
                    merged_fields(af0, be) == merged_fields(
                        fields_view(af@),
                        be.subrange(j as int, n as int),
                    ),
                decreases n - j,
            {
                let ghost afv = af@;
                let ghost cur = fields_view(af@);
                proof {
                    lemma_fields_view(af@);
                }
                match find_key(&af, &bf[j].0) {
                    Some(i) => {
                        proof {
                            assert(cur[i as int] == (afv[i as int].0@, val_view(afv[i as int].1)));
                            assert(cur[i as int].0 == be[j as int].0);
                            assert(has_key(cur, be[j as int].0));
                            assert(key_at(cur, be[j as int].0) == i) by {
                                let t = key_at(cur, be[j as int].0);
                                assert(0 <= t < cur.len() && cur[t].0 == be[j as int].0);
                            }
                            assert(wf(cur[i as int].1));
                            assert(wf(be[j as int].1));
                            assert(decreases_to!(*b => b->Obj_0));
                            assert(decreases_to!(*bf => bf@[j as int]));
                            assert(decreases_to!(bf@[j as int] => bf@[j as int].1));
                        }
                        let k0 = af[i].0.clone();
                        let avi = clone_val(&af[i].1);
                        let m = merge(avi, &bf[j].1);
                        af.set(i, (k0, m));
                        proof {
                            lemma_fields_view(af@);
                            assert(af@ == afv.update(i as int, (k0, m)));
                            assert(af@[i as int].0@ == cur[i as int].0);
                            assert(val_view(af@[i as int].1) == merged(
                                cur[i as int].1,
                                be[j as int].1,
                            ));
                            assert(step_fields(cur, be[j as int]) == cur.update(
                                i as int,
                                (be[j as int].0, merged(cur[i as int].1, be[j as int].1)),
                            ));
                            assert forall|t: int|
                                0 <= t < af@.len() implies fields_view(af@)[t] == step_fields(
                                cur,
                                be[j as int],
                            )[t] by {
                                if t != i {
                                    assert(af@[t] == afv[t]);
                                }
                            }
                            assert(fields_view(af@) =~= step_fields(cur, be[j as int]));
                        }
                    }
                    None => {
                        proof {
                            assert(!has_key(cur, be[j as int].0)) by {
                                if has_key(cur, be[j as int].0) {
                                    let t = key_at(cur, be[j as int].0);
                                    assert(0 <= t < cur.len() && cur[t].0 == be[j as int].0);
                                    assert(afv[t].0@ == bf@[j as int].0@);
                                }
                            }
                        }
                        let m = clone_val(&bf[j].1);
                        af.push((bf[j].0.clone(), m));
                        proof {
                            lemma_fields_view(af@);
                            assert forall|t: int|
                                0 <= t < af@.len() implies fields_view(af@)[t] == step_fields(
                                cur,
                                be[j as int],
                            )[t] by {
                                if t < cur.len() {
                                    assert(af@[t] == afv[t]);
                                } else {
                                    assert(af@[t].0@ == be[j as int].0);
                                    assert(val_view(af@[t].1) == be[j as int].1);
                                }
                            }
                            assert(fields_view(af@) =~= step_fields(cur, be[j as int]));
                        }
                    }
                }
                proof {
                    lemma_step_wf(cur, be[j as int]);
                    let pre = be.subrange(j as int, n as int);
                    let post = be.subrange(j + 1, n as int);
                    assert(pre[0] == be[j as int]);
                    assert(pre.subrange(1, pre.len() as int) =~= post);
                    assert(merged_fields(cur, pre) == merged_fields(
                        step_fields(cur, pre[0]),
                        pre.subrange(1, pre.len() as int),
                    ));
                }
                j += 1;
            }
            proof {
                assert(be.subrange(n as int, n as int).len() == 0);
                assert(merged_fields(af0, be) == fields_view(af@));
                assert(b@ == SpecVal::Obj(be));
                assert(merged(av, b@) == SpecVal::Obj(merged_fields(af0, be)));
                assert(wf(SpecVal::Obj(fields_view(af@))));
            }
            Val::Obj(af)
        }
        (aa, bb) => {
            proof {
                assert(merged(av, bb@) == bb@);
            }
            clone_val(bb)
        }
    }
}

/// The empty root mapping.
pub open spec fn empty_obj() -> SpecVal {
    SpecVal::Obj(Seq::empty())
}

/// The model of a flat environment: variable names and their string values.
pub type SpecEnv = Seq<(Seq<char>, Seq<char>)>;

/// The environment as mapping pairs, each value a string.
pub open spec fn env_fields(env: SpecEnv) -> Seq<SpecField> {
    Seq::new(env.len(), |i: int| (env[i].0, SpecVal::Str(env[i].1)))
}

/// The environment as a root mapping.
pub open spec fn env_obj(env: SpecEnv) -> SpecVal {
    SpecVal::Obj(env_fields(env))
}

/// A flat environment carries each variable once.
pub open spec fn uniq_env(env: SpecEnv) -> bool {
    forall|i: int, j: int| 0 <= i < j < env.len() ==> env[i].0 != env[j].0
}

/// A document admitted at the root: a mapping stays, anything else is
/// replaced by the empty mapping so that merging can proceed.
pub open spec fn root_map(v: SpecVal) -> SpecVal {
    match v {
        SpecVal::Obj(_) => v,
        _ => empty_obj(),
    }
}

/// The pairs of a mapping (empty for any other value).
pub open spec fn obj_fields(v: SpecVal) -> Seq<SpecField> {
    match v {
        SpecVal::Obj(fs) => fs,
        _ => Seq::empty(),
    }
}

/// Folding the loaded value files into `cur`, in the order given: a file
/// that failed to load (`None`) contributes nothing, a document that is not
/// a mapping at the root counts as the empty mapping.
pub open spec fn files_merged(cur: SpecVal, files: Seq<Option<SpecVal>>) -> SpecVal
    decreases files.len(),
{
    if files.len() == 0 {
        cur
    } else {
        let cur1 = match files[0] {
            Option::Some(v) => merged(cur, root_map(v)),
            Option::None => cur,
        };
        files_merged(cur1, files.subrange(1, files.len() as int))
    }
}

/// Overlaying the environment on mapping pairs, left to right: each variable
/// wholly replaces a same-named key's value and keeps its position; a new
/// name is appended.
pub open spec fn overlaid(fs: Seq<SpecField>, env: SpecEnv) -> Seq<SpecField>
    decreases env.len(),
{
    if env.len() == 0 {
        fs
    } else {
        let kv = env[0];
        overlaid(step_fields(fs, (kv.0, SpecVal::Str(kv.1))), env.subrange(1, env.len() as int))
    }
}

/// The context one run builds: the environment seeds the mapping unless it
/// is suppressed or deferred, the value files are merged in order, and when
/// the environment is preferred it is overlaid last so that its variables
/// win.
pub open spec fn context_of(
    env: SpecEnv,
    files: Seq<Option<SpecVal>>,
    no_env: bool,
    prefer_env: bool,
) -> SpecVal {
    let seed = if !no_env && !prefer_env {
        env_obj(env)
    } else {
        empty_obj()
    };
    let m = files_merged(seed, files);
    if !no_env && prefer_env {
        SpecVal::Obj(overlaid(obj_fields(m), env))
    } else {
        m
    }
}

/// A loaded file is well formed when its document is.
pub open spec fn wf_opt(o: Option<Val>) -> bool {
    match o {
        Option::Some(v) => wf(val_view(v)),
        Option::None => true,
    }
}

/// The models of the loaded value files.
pub open spec fn file_views(files: Seq<Option<Val>>) -> Seq<Option<SpecVal>> {
    Seq::new(
        files.len(),
        |i: int|
            match files[i] {
                Option::Some(v) => Option::Some(val_view(v)),
                Option::None => Option::None,
            },
    )
}

/// The models of the environment pairs.
pub open spec fn env_views(env: Seq<(String, String)>) -> SpecEnv {
    Seq::new(env.len(), |i: int| (env[i].0@, env[i].1@))
}

/// Whether the file at `i` loaded as a document that is not a mapping at the
/// root (the case that is replaced by an empty mapping, with a warning).
pub open spec fn non_map_at(files: Seq<Option<SpecVal>>, i: int) -> bool {
    match files[i] {
        Option::Some(v) => !(v is Obj),
        Option::None => false,
    }
}

/// Whether a value is a mapping.
fn obj_like(v: &Val) -> (r: bool)
    ensures
        r == (v@ is Obj),
{
    matches!(v, Val::Obj(_))
}

/// The environment seed as a run-time value.
#[verifier::loop_isolation(false)]
fn env_val(env: &Vec<(String, String)>) -> (r: Val)
    ensures
        r@ == env_obj(env_views(env@)),
{
    let mut out: Vec<(String, Val)> = Vec::new();
    let n = env.len();
    let mut i: usize = 0;
    while i < n
        invariant
            i <= n,
            out@.len() == i,
            forall|t: int| 0 <= t < i ==> (#[trigger] out@[t]).0@ == env@[t].0@,
            forall|t: int| 0 <= t < i ==> (#[trigger] out@[t]).1 == Val::Str(env@[t].1),
        decreases n - i,
    {
        out.push((env[i].0.clone(), Val::Str(env[i].1.clone())));
        i += 1;
    }
    proof {
        lemma_fields_view(out@);
        assert forall|t: int|
            0 <= t < n implies fields_view(out@)[t] == env_fields(env_views(env@))[t] by {
            assert(out@[t].0@ == env@[t].0@);
            assert(val_view(out@[t].1) == SpecVal::Str(env@[t].1@));
        }
        assert(fields_view(out@) =~= env_fields(env_views(env@)));
    }
    Val::Obj(out)
}

/// Build the rendering context from the environment and the outcome of
/// loading each value file (`None`: the file could not be opened or parsed,
/// so it contributes nothing). The result is always a mapping at the root.
/// The returned booleans flag, file by file, a document that was not a
/// mapping at the root and therefore counted as the empty mapping.
#[verifier::loop_isolation(false)]
pub fn build_context(
    env: &Vec<(String, String)>,
    files: &Vec<Option<Val>>,
    no_env: bool,
    prefer_env: bool,
) -> (r: (Val, Vec<bool>))
    requires
        uniq_env(env_views(env@)),
        forall|i: int| 0 <= i < files@.len() ==> wf_opt(#[trigger] files@[i]),
    ensures
        r.0@ == context_of(env_views(env@), file_views(files@), no_env, prefer_env),
        wf(r.0@),
        r.0@ is Obj,
        r.1@.len() == files@.len(),
        forall|i: int|
            0 <= i < files@.len() ==> (#[trigger] r.1@[i]) == non_map_at(file_views(files@), i),
{
    let ghost env_s = env_views(env@);
    let ghost files_s = file_views(files@);
    let mut warn: Vec<bool> = Vec::new();
    let mut ctx: Val = if !no_env && !prefer_env {
        env_val(env)
    } else {
        Val::Obj(Vec::new())
    };
    let ghost seed = ctx@;
    proof {
        lemma_fields_view(Seq::<(String, Val)>::empty());
        assert(uniq_keys(env_fields(env_s)));
        assert(forall|t: int|
            0 <= t < env_fields(env_s).len() ==> wf(#[trigger] env_fields(env_s)[t].1));
        assert(wf(seed));
        assert(files_s.subrange(0, files_s.len() as int) =~= files_s);
    }
    let n = files.len();
    let mut i: usize = 0;
    while i < n
        invariant
            i <= n,
            n == files@.len(),
            warn@.len() == i,
            forall|t: int| 0 <= t < i ==> warn@[t] == non_map_at(files_s, t),
            wf(ctx@),
            ctx@ is Obj,
            files_merged(seed, files_s) == files_merged(
                ctx@,
                files_s.subrange(i as int, n as int),
            ),
        decreases n - i,
    {
        let ghost pre = files_s.subrange(i as int, n as int);
        proof {
            assert(pre[0] == files_s[i as int]);
            assert(pre.subrange(1, pre.len() as int) =~= files_s.subrange(i + 1, n as int));
        }
        match &files[i] {
            Option::Some(v) => {
                if obj_like(v) {
                    proof {
                        assert(wf_opt(files@[i as int]));
                        assert(root_map(val_view(*v)) == val_view(*v));
                    }
                    ctx = merge(ctx, v);
                    warn.push(false);
                } else {
                    proof {
                        let cf = obj_fields(ctx@);
                        assert(ctx@ == SpecVal::Obj(cf));
                        assert(merged_fields(cf, Seq::<SpecField>::empty()) == cf);
                        assert(merged(ctx@, empty_obj()) == ctx@);
                    }
                    warn.push(true);
                }
            }
            Option::None => {
                warn.push(false);
            }
        }
        i += 1;
    }
    proof {
        assert(files_s.subrange(n as int, n as int).len() == 0);
        assert(files_merged(seed, files_s) == ctx@);
    }
    if !no_env && prefer_env {
        match ctx {
            Val::Obj(mut fs) => {
                let ghost fs0 = fields_view(fs@);
                let ghost m = files_merged(seed, files_s);
                proof {
                    lemma_fields_view(fs@);
                    assert(obj_fields(m) == fs0);
                    assert(wf(SpecVal::Obj(fs0)));
                    assert(env_s.subrange(0, env_s.len() as int) =~= env_s);
                }
                let en = env.len();
                let mut k: usize = 0;
                while k < en
                    invariant
                        k <= en,
                        en == env@.len(),
                        uniq_keys(fields_view(fs@)),
                        fields_view(fs@).len() == fs@.len(),
                        forall|t: int|
                            0 <= t < fs@.len() ==> wf(#[trigger] fields_view(fs@)[t].1),
                        overlaid(fs0, env_s) == overlaid(
                            fields_view(fs@),
                            env_s.subrange(k as int, en as int),
                        ),
                    decreases en - k,
                {
                    let ghost fsv = fs@;
                    let ghost curo = fields_view(fs@);
                    let ghost kv = env_s[k as int];
                    proof {
                        lemma_fields_view(fs@);
                        let preo = env_s.subrange(k as int, en as int);
                        assert(preo[0] == kv);
                        assert(preo.subrange(1, preo.len() as int) =~= env_s.subrange(
                            k + 1,
                            en as int,
                        ));
                    }
                    match find_key(&fs, &env[k].0) {
                        Some(p) => {
                            proof {
                                assert(curo[p as int].0 == kv.0);
                                assert(has_key(curo, kv.0));
                                assert(key_at(curo, kv.0) == p) by {
                                    let t = key_at(curo, kv.0);
                                    assert(0 <= t < curo.len() && curo[t].0 == kv.0);
                                }
                            }
                            let k0 = fs[p].0.clone();
                            fs.set(p, (k0, Val::Str(env[k].1.clone())));
                            proof {
                                lemma_fields_view(fs@);
                                assert(fs@ == fsv.update(p as int, fs@[p as int]));
                                assert forall|t: int|
                                    0 <= t < fs@.len() implies fields_view(fs@)[t] == curo.update(
                                    p as int,
                                    (kv.0, SpecVal::Str(kv.1)),
                                )[t] by {
                                    if t != p {
                                        assert(fs@[t] == fsv[t]);
                                    } else {
                                        assert(fs@[t].0@ == kv.0);
                                        assert(val_view(fs@[t].1) == SpecVal::Str(kv.1));
                                    }
                                }
                                assert(fields_view(fs@) =~= curo.update(
                                    p as int,
                                    (kv.0, SpecVal::Str(kv.1)),
                                ));
                                assert(merged(curo[p as int].1, SpecVal::Str(kv.1))
                                    == SpecVal::Str(kv.1));
                                assert(fields_view(fs@) == step_fields(
                                    curo,
                                    (kv.0, SpecVal::Str(kv.1)),
                                ));
                                assert(uniq_keys(fields_view(fs@))) by {
                                    assert(forall|t: int|
                                        0 <= t < curo.len() ==> (#[trigger] fields_view(fs@)[t]).0
                                            == curo[t].0);
                                }
                            }
                        }
                        None => {
                            proof {
                                assert(!has_key(curo, kv.0)) by {
                                    if has_key(curo, kv.0) {
                                        let t = key_at(curo, kv.0);
                                        assert(0 <= t < curo.len() && curo[t].0 == kv.0);
                                        assert(fsv[t].0@ == env@[k as int].0@);
                                    }
                                }
                            }
                            fs.push((env[k].0.clone(), Val::Str(env[k].1.clone())));
                            proof {
                                lemma_fields_view(fs@);
                                assert forall|t: int|
                                    0 <= t < fs@.len() implies fields_view(fs@)[t] == curo.push(
                                    (kv.0, SpecVal::Str(kv.1)),
                                )[t] by {
                                    if t < curo.len() {
                                        assert(fs@[t] == fsv[t]);
                                    } else {
                                        assert(fs@[t].0@ == kv.0);
                                        assert(val_view(fs@[t].1) == SpecVal::Str(kv.1));
                                    }
                                }
                                assert(fields_view(fs@) =~= curo.push((kv.0, SpecVal::Str(kv.1))));
                                assert(fields_view(fs@) == step_fields(
                                    curo,
                                    (kv.0, SpecVal::Str(kv.1)),
                                ));
                            }
                        }
                    }
                    k += 1;
                }
                proof {
                    assert(env_s.subrange(en as int, en as int).len() == 0);
                    assert(overlaid(fs0, env_s) == fields_view(fs@));
                    assert(wf(SpecVal::Obj(fields_view(fs@))));
                }
                ctx = Val::Obj(fs);
            }
            _ => {
                proof {
                    assert(false);
                }
                unreached()
            }
        }
    }
    (ctx, warn)
}

/// A value file that could not be opened or parsed contributes nothing: the
/// merge is the one of the remaining files.
pub proof fn lemma_failed_file_skipped(cur: SpecVal, files: Seq<Option<SpecVal>>, i: int)
    requires
        0 <= i < files.len(),
        files[i] is None,
    ensures
        files_merged(cur, files) == files_merged(cur, files.remove(i)),
    decreases files.len(),
{
    let rest = files.subrange(1, files.len() as int);
    if i == 0 {
        assert(files.remove(0) =~= rest);
    } else {
        let cur1 = match files[0] {
            Option::Some(v) => merged(cur, root_map(v)),
            Option::None => cur,
        };
        lemma_failed_file_skipped(cur1, rest, i - 1);
        assert(files.remove(i)[0] == files[0]);
        assert(files.remove(i).subrange(1, files.remove(i).len() as int) =~= rest.remove(i - 1));
    }
}

/// Value files merge batch by batch: folding one list of loaded files after
/// another is the same as folding their concatenation, so a run's context
/// depends only on the one combined, ordered file list.
pub proof fn lemma_files_merged_in_batches(
    cur: SpecVal,
    files1: Seq<Option<SpecVal>>,
    files2: Seq<Option<SpecVal>>,
)
    ensures
        files_merged(files_merged(cur, files1), files2) == files_merged(cur, files1 + files2),
    decreases files1.len(),
{
    let both = files1 + files2;
    if files1.len() == 0 {
        assert(both =~= files2);
    } else {
        let cur1 = match files1[0] {
            Option::Some(v) => merged(cur, root_map(v)),
            Option::None => cur,
        };
        lemma_files_merged_in_batches(cur1, files1.subrange(1, files1.len() as int), files2);
        assert(both[0] == files1[0]);
        assert(both.subrange(1, both.len() as int) =~= files1.subrange(1, files1.len() as int)
            + files2);
    }
}

/// With the environment suppressed, no environment variable enters the
/// context, whatever the environment holds and however precedence is set:
/// the context is the merge of the value files alone.
pub proof fn lemma_env_suppressed(env: SpecEnv, files: Seq<Option<SpecVal>>, prefer_env: bool)
    ensures
        context_of(env, files, true, prefer_env) == files_merged(empty_obj(), files),
{
}

/// What one merge step does, looked at through an arbitrary key `k`: keys
/// are preserved, the key of `f` is added or its value deep-merged, and
/// every other key keeps its value.
pub proof fn lemma_step_lookup(af: Seq<SpecField>, f: SpecField, k: Seq<char>)
    requires
        uniq_keys(af),
    ensures
        uniq_keys(step_fields(af, f)),
        has_key(step_fields(af, f), k) <==> (has_key(af, k) || k == f.0),
        k == f.0 && has_key(af, k) ==> field_val(step_fields(af, f), k) == merged(
            field_val(af, k),
            f.1,
        ),
        k == f.0 && !has_key(af, k) ==> field_val(step_fields(af, f), k) == f.1,
        k != f.0 && has_key(af, k) ==> field_val(step_fields(af, f), k) == field_val(af, k),
{
    let s = step_fields(af, f);
    if has_key(af, f.0) {
        let i = key_at(af, f.0);
        assert(0 <= i < af.len() && af[i].0 == f.0);
        assert(forall|t: int| 0 <= t < s.len() ==> (#[trigger] s[t]).0 == af[t].0);
        if has_key(af, k) {
            let p = key_at(af, k);
            assert(0 <= p < af.len() && af[p].0 == k);
            assert(s[p].0 == k);
            assert(has_key(s, k));
            assert(key_at(s, k) == p) by {
                let q = key_at(s, k);
                assert(0 <= q < s.len() && s[q].0 == k);
                assert(af[q].0 == k);
            }
            if k == f.0 {
                assert(p == i);
            }
        } else {
            assert(k != f.0);
            assert(!has_key(s, k)) by {
                if has_key(s, k) {
                    let q = key_at(s, k);
                    assert(0 <= q < s.len() && s[q].0 == k);
                    assert(af[q].0 == k);
                }
            }
        }
    } else {
        assert(s == af.push(f));
        assert(forall|t: int| 0 <= t < af.len() ==> s[t] == af[t]);
        assert(s[af.len() as int] == f);
        assert(uniq_keys(s)) by {
            assert forall|t1: int, t2: int| 0 <= t1 < t2 < s.len() implies s[t1].0 != s[t2].0 by {
                if t2 == af.len() {
                    assert(s[t1].0 == af[t1].0);
                }
            }
        }
        if k == f.0 {
            assert(has_key(s, k));
            assert(key_at(s, k) == af.len()) by {
                let q = key_at(s, k);
                assert(0 <= q < s.len() && s[q].0 == k);
                if q < af.len() {
                    assert(af[q].0 == k);
                }
            }
        } else if has_key(af, k) {
            let p = key_at(af, k);
            assert(0 <= p < af.len() && af[p].0 == k);
            assert(has_key(s, k));
            assert(key_at(s, k) == p) by {
                let q = key_at(s, k);
                assert(0 <= q < s.len() && s[q].0 == k);
                if q < af.len() {
                    assert(af[q].0 == k);
                } else {
                    assert(s[q] == f);
                }
            }
        } else {
            assert(!has_key(s, k)) by {
                if has_key(s, k) {
                    let q = key_at(s, k);
                    assert(0 <= q < s.len() && s[q].0 == k);
                    if q < af.len() {
                        assert(af[q].0 == k);
                    } else {
                        assert(s[q] == f);
                    }
                }
            }
        }
    }
}

/// Deep merge acts key by key on mappings: the result carries exactly the
/// keys of both sides; a key present in both carries the deep merge of the
/// two stored values, and a key present on one side alone keeps that side's
/// value unchanged.
pub proof fn lemma_merged_keywise(af: Seq<SpecField>, bf: Seq<SpecField>, k: Seq<char>)
    requires
        uniq_keys(af),
        uniq_keys(bf),
    ensures
        uniq_keys(merged_fields(af, bf)),
        has_key(merged_fields(af, bf), k) <==> (has_key(af, k) || has_key(bf, k)),
        has_key(af, k) && has_key(bf, k) ==> field_val(merged_fields(af, bf), k) == merged(
            field_val(af, k),
            field_val(bf, k),
        ),
        has_key(af, k) && !has_key(bf, k) ==> field_val(merged_fields(af, bf), k) == field_val(
            af,
            k,
        ),
        !has_key(af, k) && has_key(bf, k) ==> field_val(merged_fields(af, bf), k) == field_val(
            bf,
            k,
        ),
    decreases bf.len(),
{
    if bf.len() > 0 {
        let f = bf[0];
        let af1 = step_fields(af, f);
        let rest = bf.subrange(1, bf.len() as int);
        lemma_step_lookup(af, f, k);
        assert(forall|t: int| 0 <= t < rest.len() ==> rest[t] == bf[t + 1]);
        assert(uniq_keys(rest));
        lemma_merged_keywise(af1, rest, k);
        if k == f.0 {
            assert(bf[0].0 == k);
            assert(has_key(bf, k));
            assert(key_at(bf, k) == 0) by {
                let q = key_at(bf, k);
                assert(0 <= q < bf.len() && bf[q].0 == k);
            }
            assert(field_val(bf, k) == f.1);
            assert(!has_key(rest, k)) by {
                if has_key(rest, k) {
                    let q = key_at(rest, k);
                    assert(0 <= q < rest.len() && rest[q].0 == k);
                    assert(bf[q + 1].0 == k);
                }
            }
            assert(has_key(af1, k));
        } else {
            assert(has_key(bf, k) <==> has_key(rest, k)) by {
                if has_key(bf, k) {
                    let q = key_at(bf, k);
                    assert(0 <= q < bf.len() && bf[q].0 == k);
                    assert(q != 0);
                    assert(rest[q - 1].0 == k);
                }
                if has_key(rest, k) {
                    let q = key_at(rest, k);
                    assert(0 <= q < rest.len() && rest[q].0 == k);
                    assert(bf[q + 1].0 == k);
                }
            }
            if has_key(bf, k) {
                let q = key_at(bf, k);
                assert(0 <= q < bf.len() && bf[q].0 == k);
                assert(q != 0);
                assert(rest[q - 1] == bf[q]);
                assert(key_at(rest, k) == q - 1) by {
                    let t = key_at(rest, k);
                    assert(0 <= t < rest.len() && rest[t].0 == k);
                    assert(bf[t + 1].0 == k);
                }
                assert(field_val(rest, k) == field_val(bf, k));
            }
        }
    }
}

/// A loaded document is well formed.
pub open spec fn wf_doc(o: Option<SpecVal>) -> bool {
    match o {
        Option::Some(v) => wf(v),
        Option::None => true,
    }
}

/// All loaded documents are well formed.
pub open spec fn all_wf_docs(files: Seq<Option<SpecVal>>) -> bool {
    forall|i: int| 0 <= i < files.len() ==> wf_doc(#[trigger] files[i])
}

/// Two context accumulators in lockstep: they agree on every key of the
/// second, and a key only the first carries holds a non-mapping value (an
/// environment string, say).
pub open spec fn seeded_agrees(fs1: Seq<SpecField>, fs2: Seq<SpecField>) -> bool {
    &&& uniq_keys(fs1)
    &&& uniq_keys(fs2)
    &&& forall|k: Seq<char>|
        #[trigger] has_key(fs2, k) ==> has_key(fs1, k) && field_val(fs1, k) == field_val(fs2, k)
    &&& forall|k: Seq<char>|
        #[trigger] has_key(fs1, k) && !has_key(fs2, k) ==> !(field_val(fs1, k) is Obj)
}

/// Merging the same value files into two accumulators in lockstep keeps
/// them in lockstep: the extra keys of the first are non-mappings, which
/// any value from a file wholly replaces.
pub proof fn lemma_seeded_files(
    fs1: Seq<SpecField>,
    fs2: Seq<SpecField>,
    files: Seq<Option<SpecVal>>,
)
    requires
        seeded_agrees(fs1, fs2),
        all_wf_docs(files),
    ensures
        files_merged(SpecVal::Obj(fs1), files) is Obj,
        files_merged(SpecVal::Obj(fs2), files) is Obj,
        seeded_agrees(
            obj_fields(files_merged(SpecVal::Obj(fs1), files)),
            obj_fields(files_merged(SpecVal::Obj(fs2), files)),
        ),
    decreases files.len(),
{
    if files.len() > 0 {
        let rest = files.subrange(1, files.len() as int);
        assert(forall|i: int| 0 <= i < rest.len() ==> rest[i] == files[i + 1]);
        assert(all_wf_docs(rest));
        match files[0] {
            Option::Some(v) => {
                match v {
                    SpecVal::Obj(rf) => {
                        assert(wf_doc(files[0]));
                        assert(uniq_keys(rf));
                        let n1 = merged_fields(fs1, rf);
                        let n2 = merged_fields(fs2, rf);
                        lemma_merged_keywise(fs1, rf, Seq::empty());
                        lemma_merged_keywise(fs2, rf, Seq::empty());
                        assert forall|k: Seq<char>| #[trigger]
                            has_key(n2, k) implies has_key(n1, k) && field_val(n1, k) == field_val(
                            n2,
                            k,
                        ) by {
                            lemma_merged_keywise(fs1, rf, k);
                            lemma_merged_keywise(fs2, rf, k);
                            if has_key(rf, k) {
                                if !has_key(fs2, k) && has_key(fs1, k) {
                                    assert(!(field_val(fs1, k) is Obj));
                                    assert(merged(field_val(fs1, k), field_val(rf, k))
                                        == field_val(rf, k));
                                }
                            }
                        }
                        assert forall|k: Seq<char>| #[trigger]
                            has_key(n1, k) && !has_key(n2, k) implies !(field_val(n1, k)
                            is Obj) by {
                            lemma_merged_keywise(fs1, rf, k);
                            lemma_merged_keywise(fs2, rf, k);
                        }
                        assert(seeded_agrees(n1, n2));
                        assert(merged(SpecVal::Obj(fs1), root_map(v)) == SpecVal::Obj(n1));
                        assert(merged(SpecVal::Obj(fs2), root_map(v)) == SpecVal::Obj(n2));
                        lemma_seeded_files(n1, n2, rest);
                    }
                    _ => {
                        assert(merged_fields(fs1, Seq::<SpecField>::empty()) == fs1);
                        assert(merged_fields(fs2, Seq::<SpecField>::empty()) == fs2);
                        assert(merged(SpecVal::Obj(fs1), root_map(v)) == SpecVal::Obj(fs1));
                        assert(merged(SpecVal::Obj(fs2), root_map(v)) == SpecVal::Obj(fs2));
                        lemma_seeded_files(fs1, fs2, rest);
                    }
                }
            }
            Option::None => {
                lemma_seeded_files(fs1, fs2, rest);
            }
        }
    }
}

/// With the environment seeded first (neither suppressed nor preferred), a
/// value file wins: every key that the files define at the root carries, in
/// the final context, exactly the value the files alone would give it.
pub proof fn lemma_file_wins(env: SpecEnv, files: Seq<Option<SpecVal>>, k: Seq<char>)
    requires
        uniq_env(env),
        all_wf_docs(files),
        has_key(obj_fields(files_merged(empty_obj(), files)), k),
    ensures
        has_key(obj_fields(context_of(env, files, false, false)), k),
        field_val(obj_fields(context_of(env, files, false, false)), k) == field_val(
            obj_fields(files_merged(empty_obj(), files)),
            k,
        ),
{
    let ef = env_fields(env);
    assert(uniq_keys(ef));
    let none: Seq<SpecField> = Seq::empty();
    assert(!has_key(none, Seq::empty()));
    assert(forall|k2: Seq<char>| !(#[trigger] has_key(none, k2)));
    assert(seeded_agrees(ef, none));
    lemma_seeded_files(ef, none, files);
    assert(env_obj(env) == SpecVal::Obj(ef));
    assert(empty_obj() == SpecVal::Obj(none));
}

/// Folding one more pair after a list equals folding the list extended by
/// that pair.
pub proof fn lemma_merged_snoc(af: Seq<SpecField>, bf: Seq<SpecField>, f: SpecField)
    ensures
        merged_fields(af, bf.push(f)) == step_fields(merged_fields(af, bf), f),
    decreases bf.len(),
{
    let ext = bf.push(f);
    if bf.len() == 0 {
        assert(ext[0] == f);
        assert(ext.subrange(1, ext.len() as int).len() == 0);
        assert(merged_fields(af, ext) == merged_fields(
            step_fields(af, f),
            ext.subrange(1, ext.len() as int),
        ));
        assert(merged_fields(step_fields(af, f), ext.subrange(1, ext.len() as int))
            == step_fields(af, f));
        assert(merged_fields(af, bf) == af);
    } else {
        let rest = bf.subrange(1, bf.len() as int);
        lemma_merged_snoc(step_fields(af, bf[0]), rest, f);
        assert(ext[0] == bf[0]);
        assert(ext.subrange(1, ext.len() as int) =~= rest.push(f));
        assert(merged_fields(af, ext) == merged_fields(step_fields(af, bf[0]), rest.push(f)));
        assert(merged_fields(af, bf) == merged_fields(step_fields(af, bf[0]), rest));
    }
}

/// Merging pair lists with the same keys into accumulators with the same
/// keys yields results with the same keys, position by position.
pub proof fn lemma_merged_keys_shape(
    x1: Seq<SpecField>,
    y1: Seq<SpecField>,
    x2: Seq<SpecField>,
    y2: Seq<SpecField>,
)
    requires
        x1.len() == x2.len(),
        forall|t: int| 0 <= t < x1.len() ==> (#[trigger] x1[t]).0 == x2[t].0,
        y1.len() == y2.len(),
        forall|t: int| 0 <= t < y1.len() ==> (#[trigger] y1[t]).0 == y2[t].0,
    ensures
        merged_fields(x1, y1).len() == merged_fields(x2, y2).len(),
        forall|t: int|
            0 <= t < merged_fields(x1, y1).len() ==> (#[trigger] merged_fields(x1, y1)[t]).0
                == merged_fields(x2, y2)[t].0,
    decreases y1.len(),
{
    if y1.len() > 0 {
        let f1 = y1[0];
        let f2 = y2[0];
        assert(f1.0 == f2.0);
        assert(has_key(x1, f1.0) <==> has_key(x2, f2.0)) by {
            if has_key(x1, f1.0) {
                let w = key_at(x1, f1.0);
                assert(0 <= w < x1.len() && x1[w].0 == f1.0);
                assert(x2[w].0 == f2.0);
            }
            if has_key(x2, f2.0) {
                let w = key_at(x2, f2.0);
                assert(0 <= w < x2.len() && x2[w].0 == f2.0);
                assert(x1[w].0 == f1.0);
            }
        }
        let x1n = step_fields(x1, f1);
        let x2n = step_fields(x2, f2);
        assert(x1n.len() == x2n.len() && forall|t: int|
            0 <= t < x1n.len() ==> (#[trigger] x1n[t]).0 == x2n[t].0) by {
            if has_key(x1, f1.0) {
                let p1 = key_at(x1, f1.0);
                let p2 = key_at(x2, f2.0);
                assert(0 <= p1 < x1.len() && x1[p1].0 == f1.0);
                assert(0 <= p2 < x2.len() && x2[p2].0 == f2.0);
                assert(forall|t: int| 0 <= t < x1n.len() ==> (#[trigger] x1n[t]).0 == x1[t].0);
                assert(forall|t: int| 0 <= t < x2n.len() ==> (#[trigger] x2n[t]).0 == x2[t].0);
            }
        }
        let r1 = y1.subrange(1, y1.len() as int);
        let r2 = y2.subrange(1, y2.len() as int);
        assert(forall|t: int| 0 <= t < r1.len() ==> (#[trigger] r1[t]) == y1[t + 1]);
        assert(forall|t: int| 0 <= t < r2.len() ==> (#[trigger] r2[t]) == y2[t + 1]);
        lemma_merged_keys_shape(x1n, r1, x2n, r2);
    }
}

/// Two pair lists with distinct keys, the same key at every position and
/// the same value under every key are equal.
pub proof fn lemma_fields_ext(s1: Seq<SpecField>, s2: Seq<SpecField>)
    requires
        uniq_keys(s1),
        uniq_keys(s2),
        s1.len() == s2.len(),
        forall|t: int| 0 <= t < s1.len() ==> (#[trigger] s1[t]).0 == s2[t].0,
        forall|k: Seq<char>|
            #[trigger] has_key(s1, k) ==> has_key(s2, k) && field_val(s1, k) == field_val(s2, k),
    ensures
        s1 == s2,
{
    assert forall|t: int| 0 <= t < s1.len() implies s1[t] == s2[t] by {
        let k = s1[t].0;
        assert(has_key(s1, k));
        assert(key_at(s1, k) == t) by {
            let q = key_at(s1, k);
            assert(0 <= q < s1.len() && s1[q].0 == k);
        }
        assert(key_at(s2, k) == t) by {
            let q = key_at(s2, k);
            assert(0 <= q < s2.len() && s2[q].0 == k);
            assert(s1[q].0 == k);
        }
        assert(s1[t].1 == field_val(s1, k));
        assert(s2[t].1 == field_val(s2, k));
    }
    assert(s1 =~= s2);
}

/// The middle and last of three merge layers fit together: wherever the
/// last layer carries a mapping, the middle layer carries a mapping under
/// the same key (when it carries the key at all), recursively. Where this
/// fails, so does associativity: a non-mapping in the middle layer between
/// two mappings flattens the merge.
pub open spec fn assoc_compat(b: SpecVal, c: SpecVal) -> bool
    decreases c,
{
    match c {
        SpecVal::Obj(cf) => match b {
            SpecVal::Obj(bf) => assoc_compat_fields(bf, cf),
            _ => false,
        },
        _ => true,
    }
}

/// The pairwise reading of `assoc_compat` on two field lists.
pub open spec fn assoc_compat_fields(bf: Seq<SpecField>, cf: Seq<SpecField>) -> bool
    decreases cf,
{
    forall|i: int, j: int|
        #![trigger bf[i], cf[j]]
        0 <= i < bf.len() && 0 <= j < cf.len() && bf[i].0 == cf[j].0 ==> assoc_compat(
            bf[i].1,
            cf[j].1,
        )
}

/// One merge step taken before or after an earlier merge gives the same
/// pair list.
proof fn lemma_step_assoc(af: Seq<SpecField>, bf: Seq<SpecField>, f: SpecField)
    requires
        uniq_keys(af),
        uniq_keys(bf),
        forall|t: int| 0 <= t < af.len() ==> wf(#[trigger] af[t].1),
        forall|t: int| 0 <= t < bf.len() ==> wf(#[trigger] bf[t].1),
        wf(f.1),
        has_key(bf, f.0) ==> assoc_compat(field_val(bf, f.0), f.1),
    ensures
        step_fields(merged_fields(af, bf), f) == merged_fields(af, step_fields(bf, f)),
    decreases f,
{
    let m = merged_fields(af, bf);
    let bfu = step_fields(bf, f);
    let s1 = step_fields(m, f);
    let s2 = merged_fields(af, bfu);
    lemma_merged_keywise(af, bf, f.0);
    lemma_step_lookup(bf, f, f.0);
    if !has_key(bf, f.0) {
        assert(bfu == bf.push(f));
        lemma_merged_snoc(af, bf, f);
    } else {
        let i = key_at(bf, f.0);
        assert(0 <= i < bf.len() && bf[i].0 == f.0);
        let bv = bf[i].1;
        assert(field_val(bf, f.0) == bv);
        assert(bfu.len() == bf.len());
        assert(forall|t: int| 0 <= t < bf.len() ==> (#[trigger] bfu[t]).0 == bf[t].0);
        lemma_merged_keys_shape(af, bf, af, bfu);
        assert(has_key(m, f.0));
        lemma_step_lookup(m, f, f.0);
        let p = key_at(m, f.0);
        assert(0 <= p < m.len() && m[p].0 == f.0);
        assert(s1.len() == m.len());
        assert(forall|t: int| 0 <= t < m.len() ==> (#[trigger] s1[t]).0 == m[t].0);
        lemma_merged_keywise(af, bfu, f.0);
        assert forall|k: Seq<char>| #[trigger]
            has_key(s1, k) implies has_key(s2, k) && field_val(s1, k) == field_val(s2, k) by {
            lemma_step_lookup(m, f, k);
            lemma_merged_keywise(af, bf, k);
            lemma_merged_keywise(af, bfu, k);
            lemma_step_lookup(bf, f, k);
            if k == f.0 {
                if has_key(af, k) {
                    let w = key_at(af, k);
                    assert(0 <= w < af.len() && af[w].0 == k);
                    assert(wf(af[w].1));
                    assert(wf(bv)) by {
                        assert(wf(bf[i].1));
                    }
                    lemma_merge_associative(field_val(af, k), bv, f.1);
                } else {
                    assert(field_val(m, k) == bv);
                    assert(field_val(bfu, k) == merged(bv, f.1));
                }
            }
        }
        assert(s1.len() == s2.len());
        assert(forall|t: int| 0 <= t < s1.len() ==> (#[trigger] s1[t]).0 == s2[t].0);
        lemma_fields_ext(s1, s2);
    }
}

/// Merging a whole later layer before or after an earlier merge gives the
/// same pair list.
proof fn lemma_assoc_fields(af: Seq<SpecField>, bf: Seq<SpecField>, cf: Seq<SpecField>)
    requires
        uniq_keys(af),
        uniq_keys(bf),
        uniq_keys(cf),
        forall|t: int| 0 <= t < af.len() ==> wf(#[trigger] af[t].1),
        forall|t: int| 0 <= t < bf.len() ==> wf(#[trigger] bf[t].1),
        forall|t: int| 0 <= t < cf.len() ==> wf(#[trigger] cf[t].1),
        assoc_compat_fields(bf, cf),
    ensures
        merged_fields(merged_fields(af, bf), cf) == merged_fields(af, merged_fields(bf, cf)),
    decreases cf,
{
    if cf.len() > 0 {
        let f = cf[0];
        let rest = cf.subrange(1, cf.len() as int);
        assert(forall|t: int| 0 <= t < rest.len() ==> (#[trigger] rest[t]) == cf[t + 1]);
        assert(has_key(bf, f.0) ==> assoc_compat(field_val(bf, f.0), f.1)) by {
            if has_key(bf, f.0) {
                let w = key_at(bf, f.0);
                assert(0 <= w < bf.len() && bf[w].0 == f.0);
                assert(bf[w].0 == cf[0].0);
                assert(assoc_compat(bf[w].1, cf[0].1));
                assert(field_val(bf, f.0) == bf[w].1);
                assert(f.1 == cf[0].1);
            }
        }
        lemma_step_assoc(af, bf, f);
        let bf1 = step_fields(bf, f);
        lemma_step_lookup(bf, f, f.0);
        lemma_step_wf(bf, f);
        assert(assoc_compat_fields(bf1, rest)) by {
            assert forall|i: int, j: int|
                0 <= i < bf1.len() && 0 <= j < rest.len() && (#[trigger] bf1[i]).0 == (
                #[trigger] rest[j]).0 implies assoc_compat(bf1[i].1, rest[j].1) by {
                assert(rest[j] == cf[j + 1]);
                assert(cf[j + 1].0 != cf[0].0);
                if has_key(bf, f.0) {
                    let w = key_at(bf, f.0);
                    assert(0 <= w < bf.len() && bf[w].0 == f.0);
                    assert(bf1 == bf.update(w, (f.0, merged(bf[w].1, f.1))));
                    assert(bf1[i].0 != f.0);
                    assert(i != w);
                    assert(bf1[i] == bf[i]);
                } else {
                    assert(bf1 == bf.push(f));
                    assert(bf1[i].0 != f.0);
                    assert(i != bf.len());
                    assert(bf1[i] == bf[i]);
                }
                assert(bf[i].0 == cf[j + 1].0);
                assert(assoc_compat(bf[i].1, cf[j + 1].1));
            }
        }
        lemma_assoc_fields(af, bf1, rest);
        assert(decreases_to!(cf => rest));
    }
}

/// Deep merge is associative: merging `b` and then `c` into `a` equals
/// merging `a` with `b` and `c` pre-merged, whenever the layers `b` and `c`
/// fit together (`assoc_compat`). Without that fit it can fail: a mapping
/// in `a` under a key that `b` maps to a scalar and `c` maps back to a
/// mapping merges differently on the two sides.
pub proof fn lemma_merge_associative(a: SpecVal, b: SpecVal, c: SpecVal)
    requires
        wf(a),
        wf(b),
        wf(c),
        assoc_compat(b, c),
    ensures
        merged(merged(a, b), c) == merged(a, merged(b, c)),
    decreases c,
{
    match c {
        SpecVal::Obj(cf) => {
            match b {
                SpecVal::Obj(bf) => {
                    match a {
                        SpecVal::Obj(af) => {
                            lemma_assoc_fields(af, bf, cf);
                        }
                        _ => {},
                    }
                }
                _ => {},
            }
        }
        _ => {},
    }
}

/// Overlaying touches no key that the environment does not name.
pub proof fn lemma_overlaid_frame(fs: Seq<SpecField>, env: SpecEnv, k: Seq<char>)
    requires
        uniq_keys(fs),
        forall|t: int| 0 <= t < env.len() ==> (#[trigger] env[t]).0 != k,
    ensures
        uniq_keys(overlaid(fs, env)),
        has_key(overlaid(fs, env), k) == has_key(fs, k),
        has_key(fs, k) ==> field_val(overlaid(fs, env), k) == field_val(fs, k),
    decreases env.len(),
{
    if env.len() > 0 {
        let kv = env[0];
        let f = (kv.0, SpecVal::Str(kv.1));
        lemma_step_lookup(fs, f, k);
        let rest = env.subrange(1, env.len() as int);
        assert(forall|t: int| 0 <= t < rest.len() ==> rest[t] == env[t + 1]);
        lemma_overlaid_frame(step_fields(fs, f), rest, k);
    }
}

/// Folding well-formed value files into a well-formed context keeps it
/// well formed.
pub proof fn lemma_files_merged_wf(cur: SpecVal, files: Seq<Option<SpecVal>>)
    requires
        wf(cur),
        all_wf_docs(files),
    ensures
        wf(files_merged(cur, files)),
    decreases files.len(),
{
    if files.len() > 0 {
        let rest = files.subrange(1, files.len() as int);
        assert(forall|i: int| 0 <= i < rest.len() ==> rest[i] == files[i + 1]);
        assert(all_wf_docs(rest));
        match files[0] {
            Option::Some(v) => {
                assert(wf_doc(files[0]));
                assert(wf(root_map(v)));
                lemma_merged_wf(cur, root_map(v));
                lemma_files_merged_wf(merged(cur, root_map(v)), rest);
            }
            Option::None => {
                lemma_files_merged_wf(cur, rest);
            }
        }
    }
}

/// When the environment is overlaid last, each of its variables stands in
/// the result with its own string value, whatever was there before.
pub proof fn lemma_env_wins(fs: Seq<SpecField>, env: SpecEnv, i: int)
    requires
        uniq_keys(fs),
        uniq_env(env),
        0 <= i < env.len(),
    ensures
        has_key(overlaid(fs, env), env[i].0),
        field_val(overlaid(fs, env), env[i].0) == SpecVal::Str(env[i].1),
    decreases env.len(),
{
    let kv = env[0];
    let f = (kv.0, SpecVal::Str(kv.1));
    let fs1 = step_fields(fs, f);
    let rest = env.subrange(1, env.len() as int);
    assert(forall|t: int| 0 <= t < rest.len() ==> rest[t] == env[t + 1]);
    lemma_step_lookup(fs, f, kv.0);
    if i == 0 {
        assert(has_key(fs1, kv.0));
        assert(field_val(fs1, kv.0) == SpecVal::Str(kv.1)) by {
            if has_key(fs, kv.0) {
                assert(merged(field_val(fs, kv.0), SpecVal::Str(kv.1)) == SpecVal::Str(kv.1));
            }
        }
        assert(forall|t: int| 0 <= t < rest.len() ==> (#[trigger] rest[t]).0 != kv.0);
        lemma_overlaid_frame(fs1, rest, kv.0);
    } else {
        assert(uniq_env(rest));
        assert(env[i as int] == rest[i - 1]);
        lemma_env_wins(fs1, rest, i - 1);
    }
}

/// With the environment preferred (and not suppressed), each environment
/// variable ends up in the final context with its own string value,
/// overriding whatever the value files gave that key.
pub proof fn lemma_env_preferred(env: SpecEnv, files: Seq<Option<SpecVal>>, i: int)
    requires
        uniq_env(env),
        all_wf_docs(files),
        0 <= i < env.len(),
    ensures
        has_key(obj_fields(context_of(env, files, false, true)), env[i].0),
        field_val(obj_fields(context_of(env, files, false, true)), env[i].0) == SpecVal::Str(
            env[i].1,
        ),
{
    let m = files_merged(empty_obj(), files);
    assert(wf(empty_obj()));
    lemma_files_merged_wf(empty_obj(), files);
    assert(uniq_keys(obj_fields(m))) by {
        match m {
            SpecVal::Obj(fs) => {
                assert(wf(SpecVal::Obj(fs)));
            }
            _ => {}
        }
    }
    lemma_env_wins(obj_fields(m), env, i);
}

/// The extension of `path`'s base name: what follows the last `.`, empty
/// when the name has no `.` past its first character.
pub open spec fn ext_of(path: Seq<char>, sep: char) -> Seq<char> {
    let base = base_name_of(path, sep);
    let d = last_at(base, '.');
    if d <= 0 {
        Seq::empty()
    } else {
        base.subrange(d + 1, base.len() as int)
    }
}

/// An upper-case ASCII letter mapped to its lower-case form; anything else
/// unchanged.
pub open spec fn ascii_lower(c: char) -> char {
    if 'A' <= c && c <= 'Z' {
        (((c as u8) + 32) as char)
    } else {
        c
    }
}

/// `s` lower-cased, ASCII letter by ASCII letter.
pub open spec fn lower_of(s: Seq<char>) -> Seq<char> {
    Seq::new(s.len(), |i: int| ascii_lower(s[i]))
}

/// A `yaml` or `yml` extension, in any case, selects the YAML parser.
pub open spec fn is_yaml_ext(e: Seq<char>) -> bool {
    lower_of(e) == "yaml"@ || lower_of(e) == "yml"@
}

/// Any other extension is attempted as JSON; one that is not `json` is
/// worth a warning.
pub open spec fn json_warned(e: Seq<char>) -> bool {
    !is_yaml_ext(e) && lower_of(e) != "json"@
}

/// Which parser a value file gets.
#[derive(PartialEq, Eq, Structural, Clone, Copy, Debug)]
pub enum ValueFormat {
    Yaml,
    Json,
}

/// The extension of `path`, ASCII lower-cased.
#[verifier::loop_isolation(false)]
fn ext_lower(path: &str, sep: char) -> (r: String)
    ensures
        r@ == lower_of(ext_of(path@, sep)),
{
    let base = base_name(path, sep);
    let n = base.as_str().unicode_len();
    let od = last_index(base.as_str(), '.');
    let mut out = String::new();
    if let Some(d) = od {
        if d > 0 {
            let mut i: usize = d + 1;
            while i < n
                invariant
                    d + 1 <= i <= n,
                    n == base@.len(),
                    out@.len() == i - d - 1,
                    forall|j: int|
                        0 <= j < i - d - 1 ==> out@[j] == ascii_lower(base@[d + 1 + j]),
                decreases n - i,
            {
                let c = base.as_str().get_char(i);
                let c2 = if 'A' <= c && c <= 'Z' {
                    (((c as u8) + 32) as char)
                } else {
                    c
                };
                push_char(&mut out, c2);
                i += 1;
            }
            proof {
                assert(out@ =~= lower_of(ext_of(path@, sep)));
            }
            return out;
        }
    }
    proof {
        assert(out@ =~= lower_of(ext_of(path@, sep)));
    }
    out
}

/// The parser a value file gets, decided by its extension alone
/// (case-insensitive): `yaml`/`yml` select YAML, anything else is attempted
/// as JSON. The flag reports an extension other than `json` on the JSON
/// path, which is worth a warning.
pub fn detect_format(path: &str, sep: char) -> (r: (ValueFormat, bool))
    ensures
        (r.0 == ValueFormat::Yaml) == is_yaml_ext(ext_of(path@, sep)),
        r.1 == json_warned(ext_of(path@, sep)),
{
    let e = ext_lower(path, sep);
    let yaml = String::from_str("yaml");
    let yml = String::from_str("yml");
    let json = String::from_str("json");
    if e.eq(&yaml) || e.eq(&yml) {
        (ValueFormat::Yaml, false)
    } else {
        (ValueFormat::Json, !e.eq(&json))
    }
}

} // verus!
