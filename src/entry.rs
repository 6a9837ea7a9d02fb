//! Boot entries and the parser for their `key value` descriptor files.

use vstd::prelude::*;
use vstd::string::StrSliceExecFns;

use crate::text::{
    chars_of, first_index, is_whitespace, is_ws, lemma_first_index, lemma_first_index_bound,
    lemma_leading_ws, lemma_trailing_ws, trim, trim_start,
};

verus! {

/// One bootable target.
#[derive(Clone, Debug)]
pub struct BootEntry {
    pub title: String,
    pub version: Option<String>,
    pub machine_id: Option<String>,
    pub sort_key: Option<String>,
    /// Path to a raw Linux kernel image, for the direct-boot strategy.
    pub linux: Option<String>,
    pub initrd: Option<String>,
    /// Path to a firmware executable, for the delegated strategy.
    pub efi: Option<String>,
    /// Kernel command line.
    pub options: Option<String>,
}

/// A boot entry's fields as character sequences.
pub struct EntryView {
    pub title: Seq<char>,
    pub version: Option<Seq<char>>,
    pub machine_id: Option<Seq<char>>,
    pub sort_key: Option<Seq<char>>,
    pub linux: Option<Seq<char>>,
    pub initrd: Option<Seq<char>>,
    pub efi: Option<Seq<char>>,
    pub options: Option<Seq<char>>,
}

pub open spec fn opt_view(o: Option<String>) -> Option<Seq<char>> {
    match o {
        Some(s) => Some(s@),
        None => None,
    }
}

impl View for BootEntry {
    type V = EntryView;

    open spec fn view(&self) -> EntryView {
        EntryView {
            title: self.title@,
            version: opt_view(self.version),
            machine_id: opt_view(self.machine_id),
            sort_key: opt_view(self.sort_key),
            linux: opt_view(self.linux),
            initrd: opt_view(self.initrd),
            efi: opt_view(self.efi),
            options: opt_view(self.options),
        }
    }
}

/// The entry with an empty title and no other field set.
pub open spec fn empty_entry() -> EntryView {
    EntryView {
        title: Seq::empty(),
        version: None,
        machine_id: None,
        sort_key: None,
        linux: None,
        initrd: None,
        efi: None,
        options: None,
    }
}

impl BootEntry {
    pub fn new() -> (r: BootEntry)
        ensures
            r@ == empty_entry(),
    {
        BootEntry {
            title: String::new(),
            version: None,
            machine_id: None,
            sort_key: None,
            linux: None,
            initrd: None,
            efi: None,
            options: None,
        }
    }
}

/// The descriptor keys that set a field.
#[derive(Clone, Copy, Debug, PartialEq, Eq, Structural)]
pub enum Field {
    Title,
    Version,
    MachineId,
    SortKey,
    Linux,
    Initrd,
    Options,
}

/// The field a key names, if any.
pub open spec fn field_of(key: Seq<char>) -> Option<Field> {
    if key == seq!['t', 'i', 't', 'l', 'e'] {
        Some(Field::Title)
    } else if key == seq!['v', 'e', 'r', 's', 'i', 'o', 'n'] {
        Some(Field::Version)
    } else if key == seq!['m', 'a', 'c', 'h', 'i', 'n', 'e', '-', 'i', 'd'] {
        Some(Field::MachineId)
    } else if key == seq!['s', 'o', 'r', 't', '-', 'k', 'e', 'y'] {
        Some(Field::SortKey)
    } else if key == seq!['l', 'i', 'n', 'u', 'x'] {
        Some(Field::Linux)
    } else if key == seq!['i', 'n', 'i', 't', 'r', 'd'] {
        Some(Field::Initrd)
    } else if key == seq!['o', 'p', 't', 'i', 'o', 'n', 's'] {
        Some(Field::Options)
    } else {
        None
    }
}

/// The entry with one field set to `v`.
pub open spec fn set_field(e: EntryView, f: Field, v: Seq<char>) -> EntryView {
    match f {
        Field::Title => EntryView { title: v, ..e },
        Field::Version => EntryView { version: Some(v), ..e },
        Field::MachineId => EntryView { machine_id: Some(v), ..e },
        Field::SortKey => EntryView { sort_key: Some(v), ..e },
        Field::Linux => EntryView { linux: Some(v), ..e },
        Field::Initrd => EntryView { initrd: Some(v), ..e },
        Field::Options => EntryView { options: Some(v), ..e },
    }
}

/// What one line does to the entry: a trimmed line that is not blank, not a
/// `#` comment and holds a space splits there into key and value (value
/// without leading whitespace); a recognized key sets its field.
pub open spec fn apply_line(e: EntryView, line: Seq<char>) -> EntryView {
    let l = trim(line);
    if l.len() == 0 || l[0] == '#' {
        e
    } else {
        let i = first_index(l, ' ');
        if i == l.len() {
            e
        } else {
            match field_of(l.take(i as int)) {
                Some(f) => set_field(e, f, trim_start(l.skip(i as int))),
                None => e,
            }
        }
    }
}

/// The entry after the lines of `s`, taken in order, have been applied to `e`.
pub open spec fn parse_from(e: EntryView, s: Seq<char>) -> EntryView
    decreases s.len(),
{
    if s.len() == 0 {
        e
    } else {
        let i = first_index(s, '\n');
        let next = apply_line(e, s.take(i as int));
        if i >= s.len() {
            next
        } else {
            parse_from(next, s.skip(i + 1int))
        }
    }
}

/// The entry a descriptor's text describes.
pub open spec fn parse_spec(text: Seq<char>) -> EntryView {
    parse_from(empty_entry(), text)
}

/// Empty, or ending with a line break.
pub open spec fn ends_line(s: Seq<char>) -> bool {
    s.len() == 0 || s.last() == '\n'
}

proof fn lemma_parse_concat(e: EntryView, a: Seq<char>, x: Seq<char>)
    requires
        ends_line(a),
    ensures
        parse_from(e, a + x) == parse_from(parse_from(e, a), x),
    decreases a.len(),
{
    if a.len() == 0 {
        assert(a + x =~= x);
    } else {
        let s = a + x;
        lemma_first_index_bound(a, '\n');
        let i = first_index(a, '\n') as int;
        if i == a.len() {
            assert(a[a.len() - 1] != '\n');
        }
        assert forall|j: int| 0 <= j < i implies #[trigger] s[j] != '\n' by {
            assert(s[j] == a[j]);
        }
        lemma_first_index(s, '\n', i);
        assert(s.take(i) =~= a.take(i));
        let next = apply_line(e, a.take(i));
        let a2 = a.skip(i + 1);
        assert(s.skip(i + 1) =~= a2 + x);
        if a2.len() > 0 {
            assert(a2.last() == a.last());
        }
        lemma_parse_concat(next, a2, x);
    }
}

/// The key a line would set, once trimmed: everything before its first space.
pub open spec fn line_key(line: Seq<char>) -> Seq<char> {
    let l = trim(line);
    l.take(first_index(l, ' ') as int)
}

/// A line whose key is not one of the recognized keys changes nothing: the
/// descriptor parses as if the line were absent.
pub proof fn unrecognized_key_ignored(before: Seq<char>, line: Seq<char>, after: Seq<char>)
    requires
        ends_line(before),
        forall|j: int| 0 <= j < line.len() ==> #[trigger] line[j] != '\n',
        field_of(line_key(line)) is None,
    ensures
        parse_spec(before + line + seq!['\n'] + after) == parse_spec(before + after),
{
    let rest = line + seq!['\n'] + after;
    assert(before + line + seq!['\n'] + after =~= before + rest);
    lemma_parse_concat(empty_entry(), before, rest);
    lemma_parse_concat(empty_entry(), before, after);
    let e = parse_from(empty_entry(), before);
    assert forall|j: int| 0 <= j < line.len() implies #[trigger] rest[j] != '\n' by {
        assert(rest[j] == line[j]);
    }
    lemma_first_index(rest, '\n', line.len() as int);
    assert(rest.take(line.len() as int) =~= line);
    assert(rest.skip(line.len() + 1int) =~= after);
    assert(apply_line(e, line) == e);
}

/// A character that recognized keys are made of.
pub open spec fn is_key_char(c: char) -> bool {
    (0x61 <= (c as u32) <= 0x7A) || c == '-'
}

proof fn lemma_key_chars(key: Seq<char>)
    requires
        field_of(key) is Some,
    ensures
        key.len() > 0,
        forall|j: int| 0 <= j < key.len() ==> is_key_char(#[trigger] key[j]),
{
    assert forall|j: int| 0 <= j < key.len() implies is_key_char(#[trigger] key[j]) by {
        if j == 0 {
        } else if j == 1 {
        } else if j == 2 {
        } else if j == 3 {
        } else if j == 4 {
        } else if j == 5 {
        } else if j == 6 {
        } else if j == 7 {
        } else if j == 8 {
        } else {
        }
    }
}

/// A value that survives a descriptor line unchanged: not empty, no line
/// break, no whitespace at either end.
pub open spec fn clean_value(v: Seq<char>) -> bool {
    &&& v.len() > 0
    &&& !is_ws(v[0])
    &&& !is_ws(v.last())
    &&& forall|j: int| 0 <= j < v.len() ==> #[trigger] v[j] != '\n'
}

/// The descriptor line `key value`.
pub open spec fn field_line(key: Seq<char>, value: Seq<char>) -> Seq<char> {
    key + seq![' '] + value + seq!['\n']
}

proof fn lemma_field_line(e: EntryView, key: Seq<char>, value: Seq<char>)
    requires
        field_of(key) is Some,
        clean_value(value),
    ensures
        parse_from(e, field_line(key, value)) == set_field(e, field_of(key)->Some_0, value),
{
    lemma_key_chars(key);
    let s = field_line(key, value);
    let line = key + seq![' '] + value;
    let k = key.len() as int;
    let n = line.len() as int;
    assert forall|j: int| 0 <= j < n implies #[trigger] s[j] != '\n' by {
        if j < k {
            assert(s[j] == key[j]);
        } else if j > k {
            assert(s[j] == value[j - k - 1]);
        }
    }
    lemma_first_index(s, '\n', n);
    assert(s.take(n) =~= line);
    lemma_leading_ws(line, 0);
    assert(line.skip(0) =~= line);
    assert(line[n - 1] == value.last());
    lemma_trailing_ws(line, n);
    assert(line.take(n) =~= line);
    assert(trim(line) == line);
    assert forall|j: int| 0 <= j < k implies #[trigger] line[j] != ' ' by {
        assert(line[j] == key[j]);
    }
    lemma_first_index(line, ' ', k);
    assert(line.take(k) =~= key);
    let tail = line.skip(k);
    assert(tail =~= seq![' '] + value);
    lemma_leading_ws(tail, 1);
    assert(tail.skip(1) =~= value);
    assert(line[0] == key[0]);
    let next = apply_line(e, line);
    assert(next == set_field(e, field_of(key)->Some_0, value));
    assert(s.skip(n + 1) =~= Seq::<char>::empty());
    assert(parse_from(next, Seq::<char>::empty()) == next);
}

/// The descriptor line for an optional field, or nothing.
pub open spec fn opt_line(key: Seq<char>, value: Option<Seq<char>>) -> Seq<char> {
    match value {
        Some(v) => field_line(key, v),
        None => Seq::empty(),
    }
}

/// A descriptor that sets exactly the fields an entry has, one line each.
pub open spec fn render(v: EntryView) -> Seq<char> {
    (if v.title.len() > 0 {
        field_line(seq!['t', 'i', 't', 'l', 'e'], v.title)
    } else {
        Seq::empty()
    }) + opt_line(seq!['v', 'e', 'r', 's', 'i', 'o', 'n'], v.version) + opt_line(
        seq!['m', 'a', 'c', 'h', 'i', 'n', 'e', '-', 'i', 'd'],
        v.machine_id,
    ) + opt_line(seq!['s', 'o', 'r', 't', '-', 'k', 'e', 'y'], v.sort_key) + opt_line(
        seq!['l', 'i', 'n', 'u', 'x'],
        v.linux,
    ) + opt_line(seq!['i', 'n', 'i', 't', 'r', 'd'], v.initrd) + opt_line(
        seq!['o', 'p', 't', 'i', 'o', 'n', 's'],
        v.options,
    )
}

pub open spec fn clean_opt(o: Option<Seq<char>>) -> bool {
    match o {
        Some(v) => clean_value(v),
        None => true,
    }
}

proof fn lemma_opt_line(e: EntryView, key: Seq<char>, value: Option<Seq<char>>)
    requires
        field_of(key) is Some,
        clean_opt(value),
    ensures
        ends_line(opt_line(key, value)),
        parse_from(e, opt_line(key, value)) == match value {
            Some(v) => set_field(e, field_of(key)->Some_0, v),
            None => e,
        },
{
    if let Some(v) = value {
        lemma_field_line(e, key, v);
    }
}

proof fn lemma_ends_line_concat(a: Seq<char>, b: Seq<char>)
    requires
        ends_line(a),
        ends_line(b),
    ensures
        ends_line(a + b),
{
    if b.len() > 0 {
        assert((a + b).last() == b.last());
    } else {
        assert(a + b =~= a);
    }
}

proof fn lemma_append_line(e: EntryView, a: Seq<char>, key: Seq<char>, value: Option<Seq<char>>)
    requires
        ends_line(a),
        field_of(key) is Some,
        clean_opt(value),
    ensures
        ends_line(a + opt_line(key, value)),
        parse_from(e, a + opt_line(key, value)) == match value {
            Some(v) => set_field(parse_from(e, a), field_of(key)->Some_0, v),
            None => parse_from(e, a),
        },
{
    lemma_parse_concat(e, a, opt_line(key, value));
    lemma_opt_line(parse_from(e, a), key, value);
    lemma_ends_line_concat(a, opt_line(key, value));
}

/// A descriptor made only of recognized keys gives back every field it
/// sets: rendering an entry line by line and parsing the text returns the
/// entry, for values without line breaks or surrounding whitespace.
#[verifier::rlimit(40)]
pub proof fn descriptor_round_trip(v: EntryView)
    requires
        v.efi is None,
        v.title.len() == 0 || clean_value(v.title),
        clean_opt(v.version),
        clean_opt(v.machine_id),
        clean_opt(v.sort_key),
        clean_opt(v.linux),
        clean_opt(v.initrd),
        clean_opt(v.options),
    ensures
        parse_spec(render(v)) == v,
{
    let k_title = seq!['t', 'i', 't', 'l', 'e'];
    let k_version = seq!['v', 'e', 'r', 's', 'i', 'o', 'n'];
    let k_machine = seq!['m', 'a', 'c', 'h', 'i', 'n', 'e', '-', 'i', 'd'];
    let k_sort = seq!['s', 'o', 'r', 't', '-', 'k', 'e', 'y'];
    let k_linux = seq!['l', 'i', 'n', 'u', 'x'];
    let k_initrd = seq!['i', 'n', 'i', 't', 'r', 'd'];
    let k_options = seq!['o', 'p', 't', 'i', 'o', 'n', 's'];
    assert(field_of(k_title) == Some(Field::Title));
    assert(field_of(k_version) == Some(Field::Version));
    assert(field_of(k_machine) == Some(Field::MachineId));
    assert(field_of(k_sort) == Some(Field::SortKey));
    assert(field_of(k_linux) == Some(Field::Linux));
    assert(field_of(k_initrd) == Some(Field::Initrd));
    assert(field_of(k_options) == Some(Field::Options));
    let e0 = empty_entry();
    let a1 = if v.title.len() > 0 {
        field_line(k_title, v.title)
    } else {
        Seq::empty()
    };
    if v.title.len() > 0 {
        lemma_field_line(e0, k_title, v.title);
    } else {
        assert(v.title =~= Seq::<char>::empty());
    }
    let e1 = parse_from(e0, a1);
    assert(e1 == EntryView { title: v.title, ..e0 });
    let a2 = a1 + opt_line(k_version, v.version);
    lemma_append_line(e0, a1, k_version, v.version);
    let e2 = parse_from(e0, a2);
    assert(e2 == EntryView { version: v.version, ..e1 });
    let a3 = a2 + opt_line(k_machine, v.machine_id);
    lemma_append_line(e0, a2, k_machine, v.machine_id);
    let e3 = parse_from(e0, a3);
    assert(e3 == EntryView { machine_id: v.machine_id, ..e2 });
    let a4 = a3 + opt_line(k_sort, v.sort_key);
    lemma_append_line(e0, a3, k_sort, v.sort_key);
    let e4 = parse_from(e0, a4);
    assert(e4 == EntryView { sort_key: v.sort_key, ..e3 });
    let a5 = a4 + opt_line(k_linux, v.linux);
    lemma_append_line(e0, a4, k_linux, v.linux);
    let e5 = parse_from(e0, a5);
    assert(e5 == EntryView { linux: v.linux, ..e4 });
    let a6 = a5 + opt_line(k_initrd, v.initrd);
    lemma_append_line(e0, a5, k_initrd, v.initrd);
    let e6 = parse_from(e0, a6);
    assert(e6 == EntryView { initrd: v.initrd, ..e5 });
    let a7 = a6 + opt_line(k_options, v.options);
    lemma_append_line(e0, a6, k_options, v.options);
    let e7 = parse_from(e0, a7);
    assert(e7 == EntryView { options: v.options, ..e6 });
    assert(render(v) == a7);
}

fn same_chars(cs: &Vec<char>, a: usize, b: usize, word: &Vec<char>) -> (r: bool)
    requires
        a <= b <= cs@.len(),
    ensures
        r == (cs@.subrange(a as int, b as int) == word@),
{
    if b - a != word.len() {
        return false;
    }
    let mut k: usize = 0;
    while k < word.len()
        invariant
            b - a == word@.len(),
            a <= b <= cs@.len(),
            k <= word@.len(),
            forall|j: int| 0 <= j < k ==> cs@[a + j] == #[trigger] word@[j],
        decreases word@.len() - k,
    {
        if cs[a + k] != word[k] {
            assert(cs@.subrange(a as int, b as int)[k as int] != word@[k as int]);
            return false;
        }
        k = k + 1;
    }
    assert(cs@.subrange(a as int, b as int) =~= word@);
    true
}

fn field_named(cs: &Vec<char>, a: usize, b: usize) -> (r: Option<Field>)
    requires
        a <= b <= cs@.len(),
    ensures
        r == field_of(cs@.subrange(a as int, b as int)),
{
    let title = vec!['t', 'i', 't', 'l', 'e'];
    let version = vec!['v', 'e', 'r', 's', 'i', 'o', 'n'];
    let machine_id = vec!['m', 'a', 'c', 'h', 'i', 'n', 'e', '-', 'i', 'd'];
    let sort_key = vec!['s', 'o', 'r', 't', '-', 'k', 'e', 'y'];
    let linux = vec!['l', 'i', 'n', 'u', 'x'];
    let initrd = vec!['i', 'n', 'i', 't', 'r', 'd'];
    let options = vec!['o', 'p', 't', 'i', 'o', 'n', 's'];
    assert(title@ == seq!['t', 'i', 't', 'l', 'e']);
    assert(version@ == seq!['v', 'e', 'r', 's', 'i', 'o', 'n']);
    assert(machine_id@ == seq!['m', 'a', 'c', 'h', 'i', 'n', 'e', '-', 'i', 'd']);
    assert(sort_key@ == seq!['s', 'o', 'r', 't', '-', 'k', 'e', 'y']);
    assert(linux@ == seq!['l', 'i', 'n', 'u', 'x']);
    assert(initrd@ == seq!['i', 'n', 'i', 't', 'r', 'd']);
    assert(options@ == seq!['o', 'p', 't', 'i', 'o', 'n', 's']);
    if same_chars(cs, a, b, &title) {
        Some(Field::Title)
    } else if same_chars(cs, a, b, &version) {
        Some(Field::Version)
    } else if same_chars(cs, a, b, &machine_id) {
        Some(Field::MachineId)
    } else if same_chars(cs, a, b, &sort_key) {
        Some(Field::SortKey)
    } else if same_chars(cs, a, b, &linux) {
        Some(Field::Linux)
    } else if same_chars(cs, a, b, &initrd) {
        Some(Field::Initrd)
    } else if same_chars(cs, a, b, &options) {
        Some(Field::Options)
    } else {
        None
    }
}

fn set_entry_field(e: &mut BootEntry, f: Field, v: String)
    ensures
        final(e)@ == set_field(old(e)@, f, v@),
{
    match f {
        Field::Title => e.title = v,
        Field::Version => e.version = Some(v),
        Field::MachineId => e.machine_id = Some(v),
        Field::SortKey => e.sort_key = Some(v),
        Field::Linux => e.linux = Some(v),
        Field::Initrd => e.initrd = Some(v),
        Field::Options => e.options = Some(v),
    }
}

fn apply_line_at(e: &mut BootEntry, text: &str, cs: &Vec<char>, a: usize, b: usize)
    requires
        cs@ == text@,
        a <= b <= cs@.len(),
    ensures
        final(e)@ == apply_line(old(e)@, cs@.subrange(a as int, b as int)),
{
    let ghost line = cs@.subrange(a as int, b as int);
    let mut s = a;
    while s < b && is_whitespace(cs[s])
        invariant
            a <= s <= b <= cs@.len(),
            forall|j: int| a <= j < s ==> is_ws(#[trigger] cs@[j]),
        decreases b - s,
    {
        s = s + 1;
    }
    proof {
        assert forall|j: int| 0 <= j < s - a implies is_ws(#[trigger] line[j]) by {
            assert(line[j] == cs@[a + j]);
        }
        lemma_leading_ws(line, s - a);
    }
    let ghost ts = line.skip(s - a);
    assert(ts =~= cs@.subrange(s as int, b as int));
    let mut t = b;
    while t > s && is_whitespace(cs[t - 1])
        invariant
            a <= s <= t <= b <= cs@.len(),
            forall|j: int| t <= j < b ==> is_ws(#[trigger] cs@[j]),
        decreases t - s,
    {
        t = t - 1;
    }
    proof {
        assert forall|j: int| t - s <= j < ts.len() implies is_ws(#[trigger] ts[j]) by {
            assert(ts[j] == cs@[s + j]);
        }
        lemma_trailing_ws(ts, t - s);
    }
    let ghost l = cs@.subrange(s as int, t as int);
    assert(l =~= trim(line));
    if s == t || cs[s] == '#' {
        return;
    }
    let mut sp = s;
    while sp < t && cs[sp] != ' '
        invariant
            s <= sp <= t <= cs@.len(),
            forall|j: int| s <= j < sp ==> #[trigger] cs@[j] != ' ',
        decreases t - sp,
    {
        sp = sp + 1;
    }
    proof {
        assert forall|j: int| 0 <= j < sp - s implies #[trigger] l[j] != ' ' by {
            assert(l[j] == cs@[s + j]);
        }
        lemma_first_index(l, ' ', sp - s);
    }
    if sp == t {
        return;
    }
    assert(l.take(sp - s) =~= cs@.subrange(s as int, sp as int));
    match field_named(cs, s, sp) {
        None => {},
        Some(f) => {
            let mut v = sp;
            while v < t && is_whitespace(cs[v])
                invariant
                    sp <= v <= t <= cs@.len(),
                    forall|j: int| sp <= j < v ==> is_ws(#[trigger] cs@[j]),
                decreases t - v,
            {
                v = v + 1;
            }
            let ghost rest = l.skip(sp - s);
            proof {
                assert forall|j: int| 0 <= j < v - sp implies is_ws(#[trigger] rest[j]) by {
                    assert(rest[j] == cs@[sp + j]);
                }
                lemma_leading_ws(rest, v - sp);
                assert(trim_start(rest) =~= cs@.subrange(v as int, t as int));
            }
            let value = text.substring_char(v, t).to_owned();
            set_entry_field(e, f, value);
        },
    }
}

/// Parses a descriptor: one `key value` pair per line, `#` comments and
/// blank lines skipped, unknown keys ignored, a later line for a key
/// replacing an earlier one.
pub fn parse_conf(text: &str) -> (r: BootEntry)
    ensures
        r@ == parse_spec(text@),
{
    let cs = chars_of(text);
    let n = cs.len();
    let mut e = BootEntry::new();
    let mut pos: usize = 0;
    assert(cs@.skip(0) =~= cs@);
    while pos < n
        invariant
            n == cs@.len(),
            cs@ == text@,
            pos <= n,
            parse_from(e@, cs@.skip(pos as int)) == parse_spec(text@),
        decreases n - pos,
    {
        let ghost rest = cs@.skip(pos as int);
        let mut end = pos;
        while end < n && cs[end] != '\n'
            invariant
                n == cs@.len(),
                pos <= end <= n,
                forall|j: int| pos <= j < end ==> #[trigger] cs@[j] != '\n',
            decreases n - end,
        {
            end = end + 1;
        }
        proof {
            assert forall|j: int| 0 <= j < end - pos implies #[trigger] rest[j] != '\n' by {
                assert(rest[j] == cs@[pos + j]);
            }
            lemma_first_index(rest, '\n', end - pos);
            assert(rest.take(end - pos) =~= cs@.subrange(pos as int, end as int));
        }
        apply_line_at(&mut e, text, &cs, pos, end);
        if end < n {
            assert(rest.skip(end - pos + 1) =~= cs@.skip(end + 1));
            pos = end + 1;
        } else {
            assert(cs@.skip(n as int) =~= Seq::<char>::empty());
            pos = n;
        }
    }
    assert(cs@.skip(n as int) =~= Seq::<char>::empty());
    e
}

} // verus!
