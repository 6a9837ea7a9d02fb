//! Choosing how an entry is booted, and turning its paths into the names
//! the firmware's file protocol takes.

use vstd::prelude::*;

use crate::entry::BootEntry;

verus! {

/// How a chosen entry is started; each variant carries what its strategy needs.
#[derive(Debug)]
pub enum LoadStrategy {
    /// Load a raw Linux kernel through the boot protocol.
    Direct { kernel: String, initrd: Option<String>, cmdline: Option<String> },
    /// Hand a firmware executable to the firmware's image loader.
    Delegated { image: String },
}

fn copy_opt(o: &Option<String>) -> (r: Option<String>)
    ensures
        r == *o,
{
    match o {
        Some(s) => Some(s.clone()),
        None => None,
    }
}

/// The strategy for an entry: direct boot when it names a kernel image,
/// delegated when it names only a firmware executable, none otherwise.
pub fn strategy_for(e: &BootEntry) -> (r: Option<LoadStrategy>)
    ensures
        e.linux is Some ==> r == Some(
            LoadStrategy::Direct {
                kernel: e.linux->Some_0,
                initrd: e.initrd,
                cmdline: e.options,
            },
        ),
        e.linux is None && e.efi is Some ==> r == Some(
            LoadStrategy::Delegated { image: e.efi->Some_0 },
        ),
        e.linux is None && e.efi is None ==> r is None,
{
    match &e.linux {
        Some(k) => Some(
            LoadStrategy::Direct {
                kernel: k.clone(),
                initrd: copy_opt(&e.initrd),
                cmdline: copy_opt(&e.options),
            },
        ),
        None => match &e.efi {
            Some(p) => Some(LoadStrategy::Delegated { image: p.clone() }),
            None => None,
        },
    }
}

pub open spec fn is_sep(c: char) -> bool {
    c == '/' || c == '\\'
}

/// Position of the first separator in `s`, or its length.
pub open spec fn first_sep(s: Seq<char>) -> nat
    decreases s.len(),
{
    if s.len() == 0 || is_sep(s[0]) {
        0
    } else {
        1 + first_sep(s.drop_first())
    }
}

/// The non-empty parts of a path split at `/` and `\`.
pub open spec fn components(s: Seq<char>) -> Seq<Seq<char>>
    decreases s.len(),
{
    if s.len() == 0 {
        Seq::empty()
    } else {
        let i = first_sep(s);
        let rest = if i < s.len() {
            components(s.skip(i + 1int))
        } else {
            Seq::empty()
        };
        if i == 0 {
            rest
        } else {
            seq![s.take(i as int)] + rest
        }
    }
}

proof fn lemma_first_sep(s: Seq<char>, p: int)
    requires
        0 <= p <= s.len(),
        forall|j: int| 0 <= j < p ==> !is_sep(#[trigger] s[j]),
        p == s.len() || is_sep(s[p]),
    ensures
        first_sep(s) == p,
    decreases p,
{
    if p > 0 {
        let r = s.drop_first();
        assert forall|j: int| 0 <= j < p - 1 implies !is_sep(#[trigger] r[j]) by {
            assert(r[j] == s[j + 1]);
        }
        lemma_first_sep(r, p - 1);
    }
}

/// The directories and file name a path leads through, in order: the path
/// split at `/` and `\`, empty parts dropped.
pub fn path_components(path: &str) -> (r: Vec<String>)
    ensures
        r@.map_values(|s: String| s@) == components(path@),
{
    let cs = crate::text::chars_of(path);
    let n = cs.len();
    let mut out: Vec<String> = Vec::new();
    let mut pos: usize = 0;
    assert(cs@.skip(0) =~= cs@);
    while pos < n
        invariant
            n == cs@.len(),
            cs@ == path@,
            pos <= n,
            components(path@) == out@.map_values(|s: String| s@) + components(cs@.skip(pos as int)),
        decreases n - pos,
    {
        let ghost rest = cs@.skip(pos as int);
        let ghost before = out@;
        let mut end = pos;
        while end < n && cs[end] != '/' && cs[end] != '\\'
            invariant
                n == cs@.len(),
                pos <= end <= n,
                forall|j: int| pos <= j < end ==> !is_sep(#[trigger] cs@[j]),
            decreases n - end,
        {
            end = end + 1;
        }
        proof {
            assert forall|j: int| 0 <= j < end - pos implies !is_sep(#[trigger] rest[j]) by {
                assert(rest[j] == cs@[pos + j]);
            }
            lemma_first_sep(rest, end - pos);
        }
        if end > pos {
            out.push(path.substring_char(pos, end).to_owned());
            assert(rest.take(end - pos) =~= cs@.subrange(pos as int, end as int));
        }
        let ghost tail = if end < n { cs@.skip(end + 1) } else { Seq::<char>::empty() };
        assert(out@.map_values(|s: String| s@) + components(tail) =~= before.map_values(
            |s: String| s@,
        ) + components(rest)) by {
            if end < n {
                assert(rest.skip(end - pos + 1) =~= cs@.skip(end + 1));
            }
            if end > pos {
                assert(out@.map_values(|s: String| s@) =~= before.map_values(|s: String| s@).push(
                    rest.take(end - pos),
                ));
            }
        }
        if end < n {
            pos = end + 1;
        } else {
            assert(cs@.skip(n as int) =~= Seq::<char>::empty());
            pos = n;
        }
    }
    assert(cs@.skip(n as int) =~= Seq::<char>::empty());
    assert(out@.map_values(|s: String| s@) + Seq::<Seq<char>>::empty() =~= out@.map_values(
        |s: String| s@,
    ));
    out
}

/// Longest name, in characters, that the file protocol is handed.
pub const MAX_NAME_CHARS: usize = 255;

/// A name as the file protocol takes it: one 16-bit unit per character (the
/// low 16 bits of its code point) and a terminating zero.
pub open spec fn ucs2_spec(name: Seq<char>) -> Seq<u16> {
    Seq::new(name.len(), |i: int| (name[i] as u32) as u16).push(0u16)
}

/// The name in the file protocol's form; none when it is longer than
/// `MAX_NAME_CHARS` characters.
pub fn ucs2_name(name: &str) -> (r: Option<Vec<u16>>)
    ensures
        name@.len() > MAX_NAME_CHARS ==> r is None,
        name@.len() <= MAX_NAME_CHARS ==> (r is Some && r->Some_0@ == ucs2_spec(name@)),
{
    let cs = crate::text::chars_of(name);
    if cs.len() > MAX_NAME_CHARS {
        return None;
    }
    let mut out: Vec<u16> = Vec::new();
    let mut i: usize = 0;
    while i < cs.len()
        invariant
            cs@ == name@,
            i <= cs@.len(),
            out@ =~= Seq::new(i as nat, |k: int| (name@[k] as u32) as u16),
        decreases cs@.len() - i,
    {
        out.push((cs[i] as u32) as u16);
        i = i + 1;
    }
    out.push(0u16);
    Some(out)
}

} // verus!
