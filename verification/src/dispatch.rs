use vstd::prelude::*;
use crate::discover::{push_char, sep_ended, Registry};

verus! {

/// The file a rendered template is written to: the output root joined with
/// the canonical name. A root that already ends in a separator gets none
/// added; an empty root means the current directory, so the name stands
/// alone.
pub open spec fn joined(root: Seq<char>, name: Seq<char>, sep: char) -> Seq<char> {
    if root.len() == 0 {
        name
    } else if sep_ended(root) {
        root + name
    } else {
        root + seq![sep] + name
    }
}

/// The output path for `name` under `root`.
pub fn output_path(root: &str, name: &str, sep: char) -> (r: String)
    ensures
        r@ == joined(root@, name@, sep),
{
    if root.unicode_len() == 0 {
        return name.to_owned();
    }
    let mut out = root.to_owned();
    if !crate::discover::ends_with_sep(root) {
        push_char(&mut out, sep);
        proof {
            assert(out@ =~= root@ + seq![sep]);
        }
    }
    out.append(name);
    out
}

/// One planned render: which template, from which source file, into which
/// output file.
pub struct RenderJob {
    /// The template's canonical name.
    pub name: String,
    /// The source path it was registered from.
    pub source: String,
    /// The file the rendered output is written to.
    pub out_path: String,
}

/// Plan one render per registered template, in registry order: each is
/// rendered under its canonical name into the output tree, whose nested
/// directories follow the `/` separators of the name.
#[verifier::loop_isolation(false)]
pub fn plan_renders(reg: &Registry, output_root: &str, sep: char) -> (jobs: Vec<RenderJob>)
    ensures
        jobs@.len() == reg.pairs().len(),
        forall|i: int|
            0 <= i < jobs@.len() ==> {
                &&& (#[trigger] jobs@[i]).name@ == reg.pairs()[i].0
                &&& jobs@[i].source@ == reg.pairs()[i].1
                &&& jobs@[i].out_path@ == joined(output_root@, reg.pairs()[i].0, sep)
            },
{
    let mut jobs: Vec<RenderJob> = Vec::new();
    let n = reg.len();
    let mut i: usize = 0;
    while i < n
        invariant
            i <= n,
            n == reg.pairs().len(),
            jobs@.len() == i,
            forall|t: int|
                0 <= t < i ==> {
                    &&& (#[trigger] jobs@[t]).name@ == reg.pairs()[t].0
                    &&& jobs@[t].source@ == reg.pairs()[t].1
                    &&& jobs@[t].out_path@ == joined(output_root@, reg.pairs()[t].0, sep)
                },
        decreases n - i,
    {
        let (name, source) = reg.get(i);
        let out_path = output_path(output_root, name.as_str(), sep);
        jobs.push(RenderJob { name, source, out_path });
        i += 1;
    }
    jobs
}

/// `width` spaces.
pub open spec fn spaces(width: nat) -> Seq<char> {
    Seq::new(width, |i: int| ' ')
}

/// `s` with an indentation of `width` spaces inserted after every line
/// break.
pub open spec fn indented(s: Seq<char>, width: nat) -> Seq<char>
    decreases s.len(),
{
    if s.len() == 0 {
        Seq::empty()
    } else {
        let head = if s[0] == '\n' {
            seq!['\n'] + spaces(width)
        } else {
            seq![s[0]]
        };
        head + indented(s.subrange(1, s.len() as int), width)
    }
}

/// Indentation distributes over concatenation: each character is rewritten
/// on its own.
pub proof fn lemma_indented_concat(s1: Seq<char>, s2: Seq<char>, width: nat)
    ensures
        indented(s1 + s2, width) == indented(s1, width) + indented(s2, width),
    decreases s1.len(),
{
    let both = s1 + s2;
    if s1.len() == 0 {
        assert(both =~= s2);
        assert(indented(s1, width) + indented(s2, width) =~= indented(s2, width));
    } else {
        lemma_indented_concat(s1.subrange(1, s1.len() as int), s2, width);
        assert(both[0] == s1[0]);
        assert(both.subrange(1, both.len() as int) =~= s1.subrange(1, s1.len() as int) + s2);
        assert(indented(both, width) =~= indented(s1, width) + indented(s2, width));
    }
}

/// `s` with `width` spaces inserted after every line break: what the
/// engine's indent helper writes.
#[verifier::loop_isolation(false)]
pub fn indent_text(s: &str, width: usize) -> (r: String)
    ensures
        r@ == indented(s@, width as nat),
{
    let n = s.unicode_len();
    let mut out = String::new();
    let mut i: usize = 0;
    while i < n
        invariant
            i <= n,
            n == s@.len(),
            out@ == indented(s@.subrange(0, i as int), width as nat),
        decreases n - i,
    {
        let ghost done = s@.subrange(0, i as int);
        let c = s.get_char(i);
        push_char(&mut out, c);
        if c == '\n' {
            let ghost base = out@;
            let mut j: usize = 0;
            while j < width
                invariant
                    j <= width,
                    out@ == base + spaces(j as nat),
                decreases width - j,
            {
                push_char(&mut out, ' ');
                proof {
                    assert(out@ =~= base + spaces((j + 1) as nat));
                }
                j += 1;
            }
        }
        proof {
            lemma_indented_concat(done, seq![s@[i as int]], width as nat);
            assert(s@.subrange(0, (i + 1) as int) =~= done + seq![s@[i as int]]);
            let one = seq![s@[i as int]];
            assert(one.len() == 1 && one[0] == s@[i as int]);
            assert(one.subrange(1, 1).len() == 0);
            assert(indented(one.subrange(1, 1), width as nat) == Seq::<char>::empty());
            if c == '\n' {
                assert(out@ =~= indented(done, width as nat) + (seq!['\n'] + spaces(
                    width as nat,
                )));
                assert(indented(seq![s@[i as int]], width as nat) =~= seq!['\n'] + spaces(
                    width as nat,
                ));
            } else {
                assert(indented(seq![s@[i as int]], width as nat) =~= seq![s@[i as int]]);
                assert(out@ =~= indented(done, width as nat) + seq![s@[i as int]]);
            }
        }
        i += 1;
    }
    proof {
        assert(s@.subrange(0, n as int) =~= s@);
    }
    out
}

} // verus!
