//! Parsing of one desktop-entry file into an [`Entry`].
//!
//! The file is split into sections by freedesktop_entry_parser; this module
//! picks the `[Desktop Entry]` section, reads its `Name`, `Icon` and `Exec`
//! attributes and expands the field codes of `Exec`.

use vstd::prelude::*;
use crate::entry::{Entry, EntryView, blank_entry};
use crate::text::{chars_of, is_space, replace_all, replaced, string_of, trim_end, trimmed_end};

verus! {

/// One `name=value` line of a section, as bytes.
pub struct RawAttr {
    pub name: Vec<u8>,
    pub value: Vec<u8>,
}

/// One section of an entry file: its title and its attributes in file order.
pub struct RawSection {
    pub title: Vec<u8>,
    pub attrs: Vec<RawAttr>,
}

pub struct SectionView {
    pub title: Seq<u8>,
    pub attrs: Seq<(Seq<u8>, Seq<u8>)>,
}

impl View for RawSection {
    type V = SectionView;

    open spec fn view(&self) -> SectionView {
        SectionView {
            title: self.title@,
            attrs: self.attrs@.map_values(|a: RawAttr| (a.name@, a.value@)),
        }
    }
}

pub open spec fn sections_view(v: Seq<Option<RawSection>>) -> Seq<Option<SectionView>> {
    v.map_values(
        |o: Option<RawSection>|
            match o {
                Some(s) => Some(s@),
                None => None,
            },
    )
}

/// The sections that the entry-file parser finds in `bytes`, in file order;
/// `None` stands for a section that failed to parse.
pub uninterp spec fn entry_sections(bytes: Seq<u8>) -> Seq<Option<SectionView>>;

/// The text that `bytes` decode to, invalid UTF-8 replaced.
pub uninterp spec fn lossy_text(bytes: Seq<u8>) -> Seq<char>;

/// `b` spells the text `t` byte for character (both ASCII in every use).
pub open spec fn spells(b: Seq<u8>, t: Seq<char>) -> bool {
    &&& b.len() == t.len()
    &&& forall|i: int| 0 <= i < b.len() ==> b[i] as u32 == #[trigger] t[i] as u32
}

pub open spec fn is_ascii_bytes(b: Seq<u8>) -> bool {
    forall|i: int| 0 <= i < b.len() ==> #[trigger] b[i] < 128
}

/// Relies on freedesktop_entry_parser::low_level::parse_entry: the sections
/// of the file in order, each as parsed or `None` where parsing failed.
#[verifier::external_body]
fn parse_sections(content: &[u8]) -> (r: Vec<Option<RawSection>>)
    ensures
        sections_view(r@) == entry_sections(content@),
{
    freedesktop_entry_parser::low_level::parse_entry(content).map(
        |s| s.ok().map(|s| RawSection {
            title: s.title.to_vec(),
            attrs: s.attrs.iter().map(
                |a| RawAttr { name: a.name.to_vec(), value: a.value.to_vec() },
            ).collect(),
        }),
    ).collect()
}

/// Relies on String::from_utf8_lossy: the decoded text, which for ASCII bytes
/// is the same characters.
#[verifier::external_body]
fn text_of(bytes: &[u8]) -> (r: String)
    ensures
        r@ == lossy_text(bytes@),
        is_ascii_bytes(bytes@) ==> spells(bytes@, r@),
{
    String::from_utf8_lossy(bytes).into_owned()
}

/// `exec` with the field codes removed; these stand for files, URLs or
/// deprecated fields that a launcher does not supply.
pub open spec fn without_field_codes(exec: Seq<char>) -> Seq<char> {
    let e = replaced(exec, "%F"@, seq![]);
    let e = replaced(e, "%f"@, seq![]);
    let e = replaced(e, "%U"@, seq![]);
    let e = replaced(e, "%u"@, seq![]);
    let e = replaced(e, "%D"@, seq![]);
    let e = replaced(e, "%d"@, seq![]);
    let e = replaced(e, "%v"@, seq![]);
    let e = replaced(e, "%n"@, seq![]);
    let e = replaced(e, "%N"@, seq![]);
    replaced(e, "%m"@, seq![])
}

/// The command line of an `Exec` value: field codes removed, `%i` replaced by
/// the icon, `%c` by the name and `%k` by the file's location, trailing
/// whitespace trimmed.
pub open spec fn filtered_exec(
    exec: Seq<char>,
    icon: Seq<char>,
    name: Seq<char>,
    uri: Seq<char>,
) -> Seq<char> {
    let e = replaced(without_field_codes(exec), "%i"@, icon);
    let e = replaced(e, "%c"@, name);
    trimmed_end(replaced(e, "%k"@, uri))
}

fn remove_code(e: Vec<char>, code: &str) -> (r: Vec<char>)
    requires
        code@.len() == 2,
    ensures
        r@ == replaced(e@, code@, seq![]),
{
    let none: Vec<char> = Vec::new();
    replace_all(&e, &chars_of(code), &none)
}

fn substitute(e: Vec<char>, code: &str, with: &String) -> (r: Vec<char>)
    requires
        code@.len() == 2,
    ensures
        r@ == replaced(e@, code@, with@),
{
    replace_all(&e, &chars_of(code), &chars_of(with.as_str()))
}

/// Expands the field codes of an `Exec` value (see [`filtered_exec`]).
pub fn filter_exec(exec: String, icon: String, name: String, uri: String) -> (r: String)
    ensures
        r@ == filtered_exec(exec@, icon@, name@, uri@),
{
    proof {
        reveal_strlit("%F");
        reveal_strlit("%f");
        reveal_strlit("%U");
        reveal_strlit("%u");
        reveal_strlit("%D");
        reveal_strlit("%d");
        reveal_strlit("%v");
        reveal_strlit("%n");
        reveal_strlit("%N");
        reveal_strlit("%m");
        reveal_strlit("%i");
        reveal_strlit("%c");
        reveal_strlit("%k");
    }
    let e = chars_of(exec.as_str());
    let e = remove_code(e, "%F");
    let e = remove_code(e, "%f");
    let e = remove_code(e, "%U");
    let e = remove_code(e, "%u");
    let e = remove_code(e, "%D");
    let e = remove_code(e, "%d");
    let e = remove_code(e, "%v");
    let e = remove_code(e, "%n");
    let e = remove_code(e, "%N");
    let e = remove_code(e, "%m");
    let e = substitute(e, "%i", &icon);
    let e = substitute(e, "%c", &name);
    let e = substitute(e, "%k", &uri);
    string_of(&trim_end(&e))
}

/// The value of the last attribute of `attrs` whose name is `key`.
pub open spec fn last_value(attrs: Seq<(Seq<u8>, Seq<u8>)>, key: Seq<char>) -> Option<Seq<u8>>
    decreases attrs.len(),
{
    if attrs.len() == 0 {
        None
    } else if spells(attrs.last().0, key) {
        Some(attrs.last().1)
    } else {
        last_value(attrs.drop_last(), key)
    }
}

/// The first section that parsed and whose title is `Desktop Entry`.
pub open spec fn desktop_section(secs: Seq<Option<SectionView>>) -> Option<SectionView>
    decreases secs.len(),
{
    if secs.len() == 0 {
        None
    } else if secs[0] matches Some(s) && spells(s.title, "Desktop Entry"@) {
        secs[0]
    } else {
        desktop_section(secs.skip(1))
    }
}

/// The text of attribute `key`, or `default` when the section has none.
pub open spec fn attr_text(sec: SectionView, key: Seq<char>, default: Seq<char>) -> Seq<char> {
    match last_value(sec.attrs, key) {
        Some(v) => lossy_text(v),
        None => default,
    }
}

/// The entry that a `Desktop Entry` section describes, for a file at `path`.
pub open spec fn section_entry(sec: SectionView, path: Seq<char>) -> EntryView {
    let name = attr_text(sec, "Name"@, seq![]);
    let icon = attr_text(sec, "Icon"@, "application-x-executable"@);
    let exec = attr_text(sec, "Exec"@, seq![]);
    EntryView { name, icon, exec_command: filtered_exec(exec, icon, name, path), select: seq![] }
}

/// The entry that the parsed sections of a file at `path` describe: blank
/// when no section is a `Desktop Entry`.
pub open spec fn entry_of(secs: Seq<Option<SectionView>>, path: Seq<char>) -> EntryView {
    match desktop_section(secs) {
        Some(sec) => section_entry(sec, path),
        None => blank_entry(),
    }
}

/// Whether the bytes `b` spell the text `t`.
pub fn spells_text(b: &Vec<u8>, t: &str) -> (r: bool)
    ensures
        r == spells(b@, t@),
{
    let n = t.unicode_len();
    if b.len() != n {
        return false;
    }
    let mut i: usize = 0;
    while i < n
        invariant
            n == t@.len() == b.len(),
            i <= n,
            forall|k: int| 0 <= k < i ==> b@[k] as u32 == #[trigger] t@[k] as u32,
        decreases n - i,
    {
        if b[i] as u32 != t.get_char(i) as u32 {
            return false;
        }
        i = i + 1;
    }
    true
}

/// The text of the last attribute named `key`, or `default`.
fn attr_value(sec: &RawSection, key: &str, default: &str) -> (r: String)
    ensures
        r@ == attr_text(sec@, key@, default@),
{
    let ghost attrs = sec@.attrs;
    let mut i: usize = sec.attrs.len();
    assert(attrs.subrange(0, i as int) =~= attrs);
    while i > 0
        invariant
            i <= sec.attrs.len(),
            attrs == sec@.attrs,
            last_value(attrs.subrange(0, i as int), key@) == last_value(attrs, key@),
        decreases i,
    {
        let a = &sec.attrs[i - 1];
        assert(attrs.subrange(0, i as int).drop_last() =~= attrs.subrange(0, i - 1));
        assert(attrs.subrange(0, i as int).last() == (a.name@, a.value@));
        if spells_text(&a.name, key) {
            return text_of(a.value.as_slice());
        }
        i = i - 1;
    }
    default.to_owned()
}

/// The entry for a `Desktop Entry` section of a file at `path`.
fn entry_of_section(sec: &RawSection, path: &str) -> (r: Entry)
    ensures
        r@ == section_entry(sec@, path@),
{
    proof {
        reveal_strlit("");
    }
    let name = attr_value(sec, "Name", "");
    let icon = attr_value(sec, "Icon", "application-x-executable");
    let exec = attr_value(sec, "Exec", "");
    let exec = filter_exec(exec, icon.clone(), name.clone(), path.to_owned());
    let select = String::new();
    assert(select@ =~= Seq::<char>::empty());
    assert(""@ =~= Seq::<char>::empty());
    assert(name@ == attr_text(sec@, "Name"@, seq![]));
    assert(icon@ == attr_text(sec@, "Icon"@, "application-x-executable"@));
    assert(exec@ == filtered_exec(attr_text(sec@, "Exec"@, seq![]), icon@, name@, path@));
    Entry::new(name, icon, exec, select)
}

/// The entry that the sections of a file at `path` describe, as the entry
/// parser returned them: the first section titled `Desktop Entry` that parsed,
/// or a blank entry when there is none.
pub fn entry_from_sections(secs: &Vec<Option<RawSection>>, path: &str) -> (r: Entry)
    ensures
        r@ == entry_of(sections_view(secs@), path@),
{
    let ghost all = sections_view(secs@);
    let mut i: usize = 0;
    assert(all.skip(0) =~= all);
    while i < secs.len()
        invariant
            i <= secs.len(),
            all == sections_view(secs@),
            desktop_section(all.skip(i as int)) == desktop_section(all),
        decreases secs.len() - i,
    {
        assert(all.skip(i as int).skip(1) =~= all.skip(i + 1));
        match &secs[i] {
            Some(sec) => {
                if spells_text(&sec.title, "Desktop Entry") {
                    return entry_of_section(sec, path);
                }
            },
            None => {},
        }
        i = i + 1;
    }
    Entry::default()
}

/// Parses the content of the entry file at `path`. A file without a usable
/// `Desktop Entry` section gives a blank entry, never an error.
pub fn parse_desktop_entry(content: &[u8], path: &str) -> (r: Entry)
    ensures
        r@ == entry_of(entry_sections(content@), path@),
{
    let secs = parse_sections(content);
    entry_from_sections(&secs, path)
}

/// No `%` occurs in `s`, so no field code can start inside it.
pub open spec fn no_percent(s: Seq<char>) -> bool {
    forall|i: int| 0 <= i < s.len() ==> s[i] != '%'
}

/// `s` is empty or does not end in whitespace.
pub open spec fn no_trailing_space(s: Seq<char>) -> bool {
    s.len() == 0 || !is_space(s.last())
}

proof fn lemma_replaced_plain_prefix(a: Seq<char>, b: Seq<char>, pat: Seq<char>, w: Seq<char>)
    requires
        no_percent(a),
        pat.len() > 0,
        pat[0] == '%',
    ensures
        replaced(a + b, pat, w) == a + replaced(b, pat, w),
    decreases a.len(),
{
    let s = a + b;
    if a.len() == 0 {
        assert(s =~= b);
        assert(a + replaced(b, pat, w) =~= replaced(b, pat, w));
    } else {
        assert(s[0] == a[0]);
        assert(!pat.is_prefix_of(s)) by {
            if pat.is_prefix_of(s) {
                assert(pat[0] == s.subrange(0, pat.len() as int)[0]);
            }
        }
        assert(s.skip(1) =~= a.skip(1) + b);
        lemma_replaced_plain_prefix(a.skip(1), b, pat, w);
        assert(seq![s[0]] + (a.skip(1) + replaced(b, pat, w)) =~= a + replaced(b, pat, w));
    }
}

proof fn lemma_replaced_plain(a: Seq<char>, pat: Seq<char>, w: Seq<char>)
    requires
        no_percent(a),
        pat.len() > 0,
        pat[0] == '%',
    ensures
        replaced(a, pat, w) == a,
{
    lemma_replaced_plain_prefix(a, seq![], pat, w);
    assert(a + Seq::<char>::empty() =~= a);
}

/// One field code `%x` followed by `rest`, under replacement of `%y`.
proof fn lemma_replaced_code(x: char, y: char, rest: Seq<char>, w: Seq<char>)
    requires
        x != '%',
    ensures
        x == y ==> replaced(seq!['%', x] + rest, seq!['%', y], w) == w + replaced(
            rest,
            seq!['%', y],
            w,
        ),
        x != y ==> replaced(seq!['%', x] + rest, seq!['%', y], w) == seq!['%', x] + replaced(
            rest,
            seq!['%', y],
            w,
        ),
{
    let s = seq!['%', x] + rest;
    let pat = seq!['%', y];
    if x == y {
        assert(pat.is_prefix_of(s)) by {
            assert(s.subrange(0, 2) =~= pat);
        }
        assert(s.skip(2) =~= rest);
    } else {
        assert(!pat.is_prefix_of(s)) by {
            if pat.is_prefix_of(s) {
                assert(pat[1] == s.subrange(0, 2)[1]);
            }
        }
        assert(s.skip(1) =~= seq![x] + rest);
        lemma_replaced_plain_prefix(seq![x], rest, pat, w);
        assert(seq![s[0]] + (seq![x] + replaced(rest, pat, w)) =~= seq!['%', x] + replaced(
            rest,
            pat,
            w,
        ));
    }
}

/// Text made of a space followed by a field code (`Some`), or of a lone
/// space (`None`), for each item.
pub open spec fn items_text(items: Seq<Option<char>>) -> Seq<char>
    decreases items.len(),
{
    if items.len() == 0 {
        seq![]
    } else {
        let head = match items[0] {
            Some(x) => seq![' ', '%', x],
            None => seq![' '],
        };
        head + items_text(items.skip(1))
    }
}

pub open spec fn drop_code(items: Seq<Option<char>>, y: char) -> Seq<Option<char>> {
    items.map_values(
        |it: Option<char>|
            if it == Some(y) {
                None
            } else {
                it
            },
    )
}

proof fn lemma_remove_code_items(items: Seq<Option<char>>, y: char)
    requires
        forall|i: int| 0 <= i < items.len() ==> items[i] != Some('%'),
    ensures
        replaced(items_text(items), seq!['%', y], seq![]) == items_text(drop_code(items, y)),
    decreases items.len(),
{
    let pat = seq!['%', y];
    let w = Seq::<char>::empty();
    if items.len() == 0 {
        assert(drop_code(items, y) =~= items);
    } else {
        let rest = items.skip(1);
        let t = items_text(rest);
        lemma_remove_code_items(rest, y);
        assert(drop_code(items, y).skip(1) =~= drop_code(rest, y));
        match items[0] {
            Some(x) => {
                assert(items_text(items) =~= seq![' '] + (seq!['%', x] + t));
                lemma_replaced_plain_prefix(seq![' '], seq!['%', x] + t, pat, w);
                lemma_replaced_code(x, y, t, w);
                if x == y {
                    assert(seq![' '] + (w + replaced(t, pat, w)) =~= items_text(
                        drop_code(items, y),
                    ));
                } else {
                    assert(seq![' '] + (seq!['%', x] + replaced(t, pat, w)) =~= items_text(
                        drop_code(items, y),
                    ));
                }
            },
            None => {
                lemma_replaced_plain_prefix(seq![' '], t, pat, w);
                assert(seq![' '] + replaced(t, pat, w) =~= items_text(drop_code(items, y)));
            },
        }
    }
}

proof fn lemma_remove_code_after(cmd: Seq<char>, items: Seq<Option<char>>, y: char)
    requires
        no_percent(cmd),
        forall|i: int| 0 <= i < items.len() ==> items[i] != Some('%'),
    ensures
        replaced(cmd + items_text(items), seq!['%', y], seq![]) == cmd + items_text(
            drop_code(items, y),
        ),
        forall|i: int|
            0 <= i < drop_code(items, y).len() ==> drop_code(items, y)[i] != Some('%'),
{
    lemma_replaced_plain_prefix(cmd, items_text(items), seq!['%', y], seq![]);
    lemma_remove_code_items(items, y);
}

proof fn lemma_blank_items(items: Seq<Option<char>>)
    requires
        forall|i: int| 0 <= i < items.len() ==> items[i] is None,
    ensures
        no_percent(items_text(items)),
        forall|i: int| 0 <= i < items_text(items).len() ==> is_space(#[trigger] items_text(items)[i]),
    decreases items.len(),
{
    if items.len() > 0 {
        lemma_blank_items(items.skip(1));
        assert(items_text(items) =~= seq![' '] + items_text(items.skip(1)));
    }
}

proof fn lemma_trim_spaces(a: Seq<char>, sp: Seq<char>)
    requires
        forall|i: int| 0 <= i < sp.len() ==> is_space(#[trigger] sp[i]),
    ensures
        trimmed_end(a + sp) == trimmed_end(a),
    decreases sp.len(),
{
    if sp.len() == 0 {
        assert(a + sp =~= a);
    } else {
        assert((a + sp).drop_last() =~= a + sp.drop_last());
        assert((a + sp).last() == sp[sp.len() - 1]);
        lemma_trim_spaces(a, sp.drop_last());
    }
}

proof fn lemma_no_percent_concat(a: Seq<char>, b: Seq<char>)
    requires
        no_percent(a),
        no_percent(b),
    ensures
        no_percent(a + b),
{
    assert forall|i: int| 0 <= i < (a + b).len() implies (a + b)[i] != '%' by {
        if i >= a.len() {
            assert((a + b)[i] == b[i - a.len()]);
        }
    }
}

/// An `Exec` value that is a command free of `%` and of trailing whitespace,
/// followed by the ten parameter field codes, expands to the command alone,
/// whatever the icon, name and location.
pub proof fn lemma_parameter_codes_removed(
    cmd: Seq<char>,
    icon: Seq<char>,
    name: Seq<char>,
    uri: Seq<char>,
)
    requires
        no_percent(cmd),
        no_trailing_space(cmd),
    ensures
        filtered_exec(cmd + " %f %F %u %U %d %D %n %N %v %m"@, icon, name, uri) == cmd,
{
    reveal_strlit(" %f %F %u %U %d %D %n %N %v %m");
    reveal_strlit("%F");
    reveal_strlit("%f");
    reveal_strlit("%U");
    reveal_strlit("%u");
    reveal_strlit("%D");
    reveal_strlit("%d");
    reveal_strlit("%v");
    reveal_strlit("%n");
    reveal_strlit("%N");
    reveal_strlit("%m");
    reveal_strlit("%i");
    reveal_strlit("%c");
    reveal_strlit("%k");
    let items0 = seq![
        Some('f'),
        Some('F'),
        Some('u'),
        Some('U'),
        Some('d'),
        Some('D'),
        Some('n'),
        Some('N'),
        Some('v'),
        Some('m'),
    ];
    reveal_with_fuel(items_text, 11);
    assert(" %f %F %u %U %d %D %n %N %v %m"@ =~= items_text(items0));
    assert("%F"@ =~= seq!['%', 'F']);
    assert("%f"@ =~= seq!['%', 'f']);
    assert("%U"@ =~= seq!['%', 'U']);
    assert("%u"@ =~= seq!['%', 'u']);
    assert("%D"@ =~= seq!['%', 'D']);
    assert("%d"@ =~= seq!['%', 'd']);
    assert("%v"@ =~= seq!['%', 'v']);
    assert("%n"@ =~= seq!['%', 'n']);
    assert("%N"@ =~= seq!['%', 'N']);
    assert("%m"@ =~= seq!['%', 'm']);
    lemma_remove_code_after(cmd, items0, 'F');
    let i1 = drop_code(items0, 'F');
    lemma_remove_code_after(cmd, i1, 'f');
    let i2 = drop_code(i1, 'f');
    lemma_remove_code_after(cmd, i2, 'U');
    let i3 = drop_code(i2, 'U');
    lemma_remove_code_after(cmd, i3, 'u');
    let i4 = drop_code(i3, 'u');
    lemma_remove_code_after(cmd, i4, 'D');
    let i5 = drop_code(i4, 'D');
    lemma_remove_code_after(cmd, i5, 'd');
    let i6 = drop_code(i5, 'd');
    lemma_remove_code_after(cmd, i6, 'v');
    let i7 = drop_code(i6, 'v');
    lemma_remove_code_after(cmd, i7, 'n');
    let i8 = drop_code(i7, 'n');
    lemma_remove_code_after(cmd, i8, 'N');
    let i9 = drop_code(i8, 'N');
    lemma_remove_code_after(cmd, i9, 'm');
    let i10 = drop_code(i9, 'm');
    assert(i10 =~= Seq::new(10, |i: int| None::<char>));
    let e = cmd + items_text(i10);
    assert(without_field_codes(cmd + " %f %F %u %U %d %D %n %N %v %m"@) == e);
    lemma_blank_items(i10);
    lemma_no_percent_concat(cmd, items_text(i10));
    lemma_replaced_plain(e, "%i"@, icon);
    lemma_replaced_plain(e, "%c"@, name);
    lemma_replaced_plain(e, "%k"@, uri);
    lemma_trim_spaces(cmd, items_text(i10));
}

/// `%x` stays as it is under the removal of every other field code.
proof fn lemma_single_code_kept(x: char)
    requires
        x != '%',
        x != 'F' && x != 'f' && x != 'U' && x != 'u' && x != 'D' && x != 'd',
        x != 'v' && x != 'n' && x != 'N' && x != 'm',
    ensures
        without_field_codes(seq!['%', x]) == seq!['%', x],
{
    reveal_strlit("%F");
    reveal_strlit("%f");
    reveal_strlit("%U");
    reveal_strlit("%u");
    reveal_strlit("%D");
    reveal_strlit("%d");
    reveal_strlit("%v");
    reveal_strlit("%n");
    reveal_strlit("%N");
    reveal_strlit("%m");
    let s = seq!['%', x];
    let e = Seq::<char>::empty();
    assert(s + e =~= s);
    assert(seq!['%', x] + e =~= s);
    lemma_replaced_plain(e, seq!['%', 'F'], e);
    lemma_replaced_code(x, 'F', e, e);
    assert("%F"@ =~= seq!['%', 'F']);
    lemma_replaced_code(x, 'f', e, e);
    assert("%f"@ =~= seq!['%', 'f']);
    lemma_replaced_code(x, 'U', e, e);
    assert("%U"@ =~= seq!['%', 'U']);
    lemma_replaced_code(x, 'u', e, e);
    assert("%u"@ =~= seq!['%', 'u']);
    lemma_replaced_code(x, 'D', e, e);
    assert("%D"@ =~= seq!['%', 'D']);
    lemma_replaced_code(x, 'd', e, e);
    assert("%d"@ =~= seq!['%', 'd']);
    lemma_replaced_code(x, 'v', e, e);
    assert("%v"@ =~= seq!['%', 'v']);
    lemma_replaced_code(x, 'n', e, e);
    assert("%n"@ =~= seq!['%', 'n']);
    lemma_replaced_code(x, 'N', e, e);
    assert("%N"@ =~= seq!['%', 'N']);
    lemma_replaced_code(x, 'm', e, e);
    assert("%m"@ =~= seq!['%', 'm']);
}

proof fn lemma_trim_kept(s: Seq<char>)
    requires
        no_trailing_space(s),
    ensures
        trimmed_end(s) == s,
{
}

/// `Exec=%i` expands to the icon, when the icon holds no `%` and does not end
/// in whitespace.
pub proof fn lemma_icon_code(icon: Seq<char>, name: Seq<char>, uri: Seq<char>)
    requires
        no_percent(icon),
        no_trailing_space(icon),
    ensures
        filtered_exec("%i"@, icon, name, uri) == icon,
{
    reveal_strlit("%i");
    reveal_strlit("%c");
    reveal_strlit("%k");
    assert("%i"@ =~= seq!['%', 'i']);
    assert("%c"@ =~= seq!['%', 'c']);
    assert("%k"@ =~= seq!['%', 'k']);
    lemma_single_code_kept('i');
    let e = Seq::<char>::empty();
    lemma_replaced_code('i', 'i', e, icon);
    lemma_replaced_plain(e, "%i"@, icon);
    assert(icon + e =~= icon);
    assert(seq!['%', 'i'] + e =~= seq!['%', 'i']);
    lemma_replaced_plain(icon, "%c"@, name);
    lemma_replaced_plain(icon, "%k"@, uri);
    lemma_trim_kept(icon);
}

/// `Exec=%c` expands to the name, when the name holds no `%` and does not end
/// in whitespace.
pub proof fn lemma_name_code(icon: Seq<char>, name: Seq<char>, uri: Seq<char>)
    requires
        no_percent(name),
        no_trailing_space(name),
    ensures
        filtered_exec("%c"@, icon, name, uri) == name,
{
    reveal_strlit("%i");
    reveal_strlit("%c");
    reveal_strlit("%k");
    assert("%i"@ =~= seq!['%', 'i']);
    assert("%c"@ =~= seq!['%', 'c']);
    assert("%k"@ =~= seq!['%', 'k']);
    lemma_single_code_kept('c');
    let e = Seq::<char>::empty();
    assert(seq!['%', 'c'] + e =~= seq!['%', 'c']);
    assert(name + e =~= name);
    lemma_replaced_plain(e, "%i"@, icon);
    lemma_replaced_code('c', 'i', e, icon);
    lemma_replaced_plain(e, "%c"@, name);
    lemma_replaced_code('c', 'c', e, name);
    lemma_replaced_plain(name, "%k"@, uri);
    lemma_trim_kept(name);
}

/// `Exec=%k` expands to the file's location, when it does not end in
/// whitespace.
pub proof fn lemma_location_code(icon: Seq<char>, name: Seq<char>, uri: Seq<char>)
    requires
        no_trailing_space(uri),
    ensures
        filtered_exec("%k"@, icon, name, uri) == uri,
{
    reveal_strlit("%i");
    reveal_strlit("%c");
    reveal_strlit("%k");
    assert("%i"@ =~= seq!['%', 'i']);
    assert("%c"@ =~= seq!['%', 'c']);
    assert("%k"@ =~= seq!['%', 'k']);
    lemma_single_code_kept('k');
    let e = Seq::<char>::empty();
    assert(seq!['%', 'k'] + e =~= seq!['%', 'k']);
    assert(uri + e =~= uri);
    lemma_replaced_plain(e, "%i"@, icon);
    lemma_replaced_code('k', 'i', e, icon);
    lemma_replaced_plain(e, "%c"@, name);
    lemma_replaced_code('k', 'c', e, name);
    lemma_replaced_plain(e, "%k"@, uri);
    lemma_replaced_code('k', 'k', e, uri);
    lemma_trim_kept(uri);
}

} // verus!
