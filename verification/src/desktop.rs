//! The freedesktop `.desktop` entry reader and the stable entry identifier.
//!
//! The format is INI-like for the fields SayRat needs: within the
//! `[Desktop Entry]` group, `Key=Value` lines give the entry's type, name,
//! comment (or generic name), command line, icon and visibility.

use vstd::prelude::*;
use vstd::string::{StrSliceExecFns, StringSliceAdditionalSpecFns};
use crate::messages::{Entry, EntryKind, EntryModel, opt_text};

verus! {

/// The Unicode `White_Space` characters, those that `char::is_whitespace`
/// recognizes and `str::trim` removes.
pub open spec fn is_space(c: char) -> bool {
    let u = c as u32;
    ||| u == 0x20
    ||| (0x09 <= u && u <= 0x0d)
    ||| u == 0x85
    ||| u == 0xa0
    ||| u == 0x1680
    ||| (0x2000 <= u && u <= 0x200a)
    ||| u == 0x2028
    ||| u == 0x2029
    ||| u == 0x202f
    ||| u == 0x205f
    ||| u == 0x3000
}

/// `s` without its leading white space.
pub open spec fn trim_start(s: Seq<char>) -> Seq<char>
    decreases s.len(),
{
    if s.len() > 0 && is_space(s[0]) {
        trim_start(s.drop_first())
    } else {
        s
    }
}

/// `s` without its trailing white space.
pub open spec fn trim_end(s: Seq<char>) -> Seq<char>
    decreases s.len(),
{
    if s.len() > 0 && is_space(s.last()) {
        trim_end(s.drop_last())
    } else {
        s
    }
}

/// `s` without leading and trailing white space, as `str::trim` gives it.
pub open spec fn trim(s: Seq<char>) -> Seq<char> {
    trim_end(trim_start(s))
}

/// The index of the first `c` in `s`, or the length of `s` when there is none.
pub open spec fn first_index(s: Seq<char>, c: char) -> int
    decreases s.len(),
{
    if s.len() == 0 {
        0
    } else if s[0] == c {
        0
    } else {
        1 + first_index(s.drop_first(), c)
    }
}

/// The code point of the ASCII lower case of a character; other characters
/// are unchanged.
pub open spec fn ascii_lower(c: char) -> u32 {
    let u = c as u32;
    if 0x41 <= u && u <= 0x5a {
        (u + 32) as u32
    } else {
        u
    }
}

/// `s` equals `t` up to ASCII case, as `str::eq_ignore_ascii_case` decides.
pub open spec fn eq_ignore_ascii_case(s: Seq<char>, t: Seq<char>) -> bool {
    &&& s.len() == t.len()
    &&& forall|i: int| 0 <= i < s.len() ==> ascii_lower(#[trigger] s[i]) == ascii_lower(t[i])
}

pub open spec fn section_header() -> Seq<char> {
    seq!['[', 'D', 'e', 's', 'k', 't', 'o', 'p', ' ', 'E', 'n', 't', 'r', 'y', ']']
}

pub open spec fn key_type() -> Seq<char> {
    seq!['T', 'y', 'p', 'e']
}

pub open spec fn key_name() -> Seq<char> {
    seq!['N', 'a', 'm', 'e']
}

pub open spec fn key_comment() -> Seq<char> {
    seq!['C', 'o', 'm', 'm', 'e', 'n', 't']
}

pub open spec fn key_generic_name() -> Seq<char> {
    seq!['G', 'e', 'n', 'e', 'r', 'i', 'c', 'N', 'a', 'm', 'e']
}

pub open spec fn key_exec() -> Seq<char> {
    seq!['E', 'x', 'e', 'c']
}

pub open spec fn key_icon() -> Seq<char> {
    seq!['I', 'c', 'o', 'n']
}

pub open spec fn key_hidden() -> Seq<char> {
    seq!['H', 'i', 'd', 'd', 'e', 'n']
}

pub open spec fn key_no_display() -> Seq<char> {
    seq!['N', 'o', 'D', 'i', 's', 'p', 'l', 'a', 'y']
}

pub open spec fn word_true() -> Seq<char> {
    seq!['t', 'r', 'u', 'e']
}

pub open spec fn word_application() -> Seq<char> {
    seq!['A', 'p', 'p', 'l', 'i', 'c', 'a', 't', 'i', 'o', 'n']
}

/// What the reader has gathered so far.
pub struct DesktopFields {
    pub in_entry_group: bool,
    pub entry_type: Option<Seq<char>>,
    pub name: Option<Seq<char>>,
    pub comment: Option<Seq<char>>,
    pub command: Option<Seq<char>>,
    pub icon: Option<Seq<char>>,
    pub hidden: bool,
    pub no_display: bool,
}

/// Nothing gathered yet.
pub open spec fn no_fields() -> DesktopFields {
    DesktopFields {
        in_entry_group: false,
        entry_type: None,
        name: None,
        comment: None,
        command: None,
        icon: None,
        hidden: false,
        no_display: false,
    }
}

/// What one line adds. The line is trimmed; empty lines and `#` comments
/// change nothing; a `[...]` line opens a group; inside `[Desktop Entry]` a
/// `Key=Value` line (split at its first `=`, the key untrimmed, the value
/// trimmed) sets the field it names. A later value replaces an earlier one,
/// except that `Comment` and `GenericName` fill the comment only while it is
/// unset. `Hidden` and `NoDisplay` hold when their value is `true` in any
/// ASCII case.
pub open spec fn read_line(st: DesktopFields, raw: Seq<char>) -> DesktopFields {
    let line = trim(raw);
    if line.len() == 0 || line[0] == '#' {
        st
    } else if line[0] == '[' && line.last() == ']' {
        DesktopFields { in_entry_group: line == section_header(), ..st }
    } else if !st.in_entry_group {
        st
    } else {
        let k = first_index(line, '=');
        if k >= line.len() {
            st
        } else {
            let key = line.take(k);
            let value = trim(line.skip(k + 1));
            if key == key_type() {
                DesktopFields { entry_type: Some(value), ..st }
            } else if key == key_name() {
                DesktopFields { name: Some(value), ..st }
            } else if (key == key_comment() || key == key_generic_name()) && st.comment is None {
                DesktopFields { comment: Some(value), ..st }
            } else if key == key_exec() {
                DesktopFields { command: Some(value), ..st }
            } else if key == key_icon() {
                DesktopFields { icon: Some(value), ..st }
            } else if key == key_hidden() {
                DesktopFields { hidden: eq_ignore_ascii_case(value, word_true()), ..st }
            } else if key == key_no_display() {
                DesktopFields { no_display: eq_ignore_ascii_case(value, word_true()), ..st }
            } else {
                st
            }
        }
    }
}

/// Where the line that starts at `pos` ends: at the next `\n`, or at the end.
pub open spec fn line_end(s: Seq<char>, pos: int) -> int
    decreases s.len() - pos,
{
    if pos >= s.len() || s[pos] == '\n' {
        pos
    } else {
        line_end(s, pos + 1)
    }
}

pub proof fn lemma_line_end_bounds(s: Seq<char>, pos: int)
    requires
        0 <= pos <= s.len(),
    ensures
        pos <= line_end(s, pos) <= s.len(),
        line_end(s, pos) < s.len() ==> s[line_end(s, pos)] == '\n',
    decreases s.len() - pos,
{
    if pos < s.len() && s[pos] != '\n' {
        lemma_line_end_bounds(s, pos + 1);
    }
}

/// The fields gathered from `st` on by reading, in order, each `\n`-separated
/// line of `s` that starts at or after `pos`. (A `\r` before a `\n`, which
/// `str::lines` drops, is white space that trimming drops too, and a final
/// empty line changes nothing.)
pub open spec fn read_lines(s: Seq<char>, pos: int, st: DesktopFields) -> DesktopFields
    decreases s.len() + 1 - pos,
{
    if pos < 0 || pos > s.len() {
        st
    } else {
        let e = line_end(s, pos);
        proof {
            lemma_line_end_bounds(s, pos);
        }
        read_lines(s, e + 1, read_line(st, s.subrange(pos, e)))
    }
}

/// The entry that a desktop file with text `content` describes, given the id
/// that its path gets: none when it is hidden, not displayed, not of type
/// `Application`, or has no name.
pub open spec fn desktop_entry(id: u64, content: Seq<char>) -> Option<EntryModel> {
    let f = read_lines(content, 0, no_fields());
    if f.hidden || f.no_display || f.entry_type != Some(word_application()) {
        None
    } else {
        match f.name {
            None => None,
            Some(name) => Some(
                EntryModel {
                    id,
                    kind: EntryKind::Application,
                    name,
                    subtitle: f.comment,
                    command: f.command,
                    icon: f.icon,
                },
            ),
        }
    }
}

/// The 64-bit FNV-1a hash of `bytes`.
pub open spec fn fnv1a(bytes: Seq<u8>) -> u64
    decreases bytes.len(),
{
    if bytes.len() == 0 {
        0xcbf2_9ce4_8422_2325u64
    } else {
        ((fnv1a(bytes.drop_last()) ^ (bytes.last() as u64)) as u64).wrapping_mul(
            0x0000_0100_0000_01b3u64,
        )
    }
}

/// Stable identifier of an entry: the FNV-1a hash of its path's UTF-8 bytes.
pub fn stable_id(path: &str) -> (id: u64)
    ensures
        id == fnv1a(path.spec_bytes()),
{
    let bytes = path.as_bytes();
    let mut hash: u64 = 0xcbf2_9ce4_8422_2325u64;
    let mut i: usize = 0;
    while i < bytes.len()
        invariant
            i <= bytes@.len(),
            bytes@ == path.spec_bytes(),
            hash == fnv1a(bytes@.take(i as int)),
        decreases bytes@.len() - i,
    {
        assert(bytes@.take(i as int + 1).drop_last() =~= bytes@.take(i as int));
        hash = hash ^ (bytes[i] as u64);
        hash = hash.wrapping_mul(0x0000_0100_0000_01b3u64);
        i = i + 1;
    }
    assert(bytes@.take(i as int) =~= bytes@);
    hash
}


/// The characters of `s`.
pub(crate) fn chars_of(s: &str) -> (v: Vec<char>)
    ensures
        v@ == s@,
{
    let mut v: Vec<char> = Vec::new();
    for c in it: s.chars()
        invariant
            v@ == it.seq().take(it.index() as int),
    {
        v.push(c);
    }
    v
}

/// An owned copy of the characters `a..b` of `s`.
pub(crate) fn text_between(s: &str, a: usize, b: usize) -> (r: String)
    requires
        a <= b <= s@.len(),
    ensures
        r@ == s@.subrange(a as int, b as int),
{
    s.substring_char(a, b).to_owned()
}

fn space(c: char) -> (r: bool)
    ensures
        r == is_space(c),
{
    let u = c as u32;
    u == 0x20 || (0x09 <= u && u <= 0x0d) || u == 0x85 || u == 0xa0 || u == 0x1680 || (0x2000
        <= u && u <= 0x200a) || u == 0x2028 || u == 0x2029 || u == 0x202f || u == 0x205f || u
        == 0x3000
}

/// The bounds of the trimmed part of `v[start..end]`.
fn trim_bounds(v: &Vec<char>, start: usize, end: usize) -> (r: (usize, usize))
    requires
        start <= end <= v@.len(),
    ensures
        start <= r.0 <= r.1 <= end,
        v@.subrange(r.0 as int, r.1 as int) == trim(v@.subrange(start as int, end as int)),
{
    let mut a = start;
    while a < end && space(v[a])
        invariant
            start <= a <= end <= v@.len(),
            trim_start(v@.subrange(start as int, end as int)) == trim_start(
                v@.subrange(a as int, end as int),
            ),
        decreases end - a,
    {
        assert(v@.subrange(a as int, end as int).drop_first() =~= v@.subrange(
            a as int + 1,
            end as int,
        ));
        a = a + 1;
    }
    let mut b = end;
    while b > a && space(v[b - 1])
        invariant
            start <= a <= b <= end <= v@.len(),
            trim_end(v@.subrange(a as int, end as int)) == trim_end(v@.subrange(a as int, b as int)),
        decreases b - a,
    {
        assert(v@.subrange(a as int, b as int).drop_last() =~= v@.subrange(
            a as int,
            b as int - 1,
        ));
        b = b - 1;
    }
    (a, b)
}

/// `v[a..b]` is `lit`.
fn same(v: &Vec<char>, a: usize, b: usize, lit: &[char]) -> (r: bool)
    requires
        a <= b <= v@.len(),
    ensures
        r == (v@.subrange(a as int, b as int) == lit@),
{
    if b - a != lit.len() {
        return false;
    }
    let mut i: usize = 0;
    while i < lit.len()
        invariant
            b - a == lit@.len(),
            a <= b <= v@.len(),
            i <= lit@.len(),
            forall|j: int| 0 <= j < i ==> v@[a + j] == lit@[j],
        decreases lit@.len() - i,
    {
        if v[a + i] != lit[i] {
            assert(v@.subrange(a as int, b as int)[i as int] != lit@[i as int]);
            return false;
        }
        i = i + 1;
    }
    assert(v@.subrange(a as int, b as int) =~= lit@);
    true
}

fn lower(c: char) -> (r: u32)
    ensures
        r == ascii_lower(c),
{
    let u = c as u32;
    if 0x41 <= u && u <= 0x5a {
        u + 32
    } else {
        u
    }
}

/// `v[a..b]` is `true` up to ASCII case.
fn is_true(v: &Vec<char>, a: usize, b: usize) -> (r: bool)
    requires
        a <= b <= v@.len(),
    ensures
        r == eq_ignore_ascii_case(v@.subrange(a as int, b as int), word_true()),
{
    let word = ['t', 'r', 'u', 'e'];
    assert(word@ =~= word_true());
    if b - a != 4 {
        return false;
    }
    let mut i: usize = 0;
    while i < 4
        invariant
            b - a == 4,
            a <= b <= v@.len(),
            i <= 4,
            word@ == word_true(),
            forall|j: int| 0 <= j < i ==> ascii_lower(v@[a + j]) == ascii_lower(word@[j]),
        decreases 4 - i,
    {
        if lower(v[a + i]) != lower(word[i]) {
            assert(v@.subrange(a as int, b as int)[i as int] == v@[a + i]);
            return false;
        }
        i = i + 1;
    }
    assert forall|j: int| 0 <= j < 4 implies ascii_lower(
        #[trigger] v@.subrange(a as int, b as int)[j],
    ) == ascii_lower(word_true()[j]) by {
        assert(v@.subrange(a as int, b as int)[j] == v@[a + j]);
    }
    true
}


/// The position of the first `=` in `v[a..b]`, or `b`.
fn find_equals(v: &Vec<char>, a: usize, b: usize) -> (k: usize)
    requires
        a <= b <= v@.len(),
    ensures
        a <= k <= b,
        k - a == first_index(v@.subrange(a as int, b as int), '='),
{
    let mut i = a;
    while i < b && v[i] != '='
        invariant
            a <= i <= b <= v@.len(),
            first_index(v@.subrange(a as int, b as int), '=') == (i - a) + first_index(
                v@.subrange(i as int, b as int),
                '=',
            ),
        decreases b - i,
    {
        assert(v@.subrange(i as int, b as int).drop_first() =~= v@.subrange(i as int + 1, b as int));
        i = i + 1;
    }
    i
}

/// The fields gathered so far, in executable form.
struct Fields {
    in_entry_group: bool,
    entry_type: Option<String>,
    name: Option<String>,
    comment: Option<String>,
    command: Option<String>,
    icon: Option<String>,
    hidden: bool,
    no_display: bool,
}

impl View for Fields {
    type V = DesktopFields;

    closed spec fn view(&self) -> DesktopFields {
        DesktopFields {
            in_entry_group: self.in_entry_group,
            entry_type: opt_text(self.entry_type),
            name: opt_text(self.name),
            comment: opt_text(self.comment),
            command: opt_text(self.command),
            icon: opt_text(self.icon),
            hidden: self.hidden,
            no_display: self.no_display,
        }
    }
}

/// Reads the line `content[start..end]` (whose characters `v` holds) into `st`.
fn read_one_line(content: &str, v: &Vec<char>, start: usize, end: usize, st: &mut Fields)
    requires
        v@ == content@,
        start <= end <= v@.len(),
    ensures
        final(st)@ == read_line(old(st)@, v@.subrange(start as int, end as int)),
{
    let (a, b) = trim_bounds(v, start, end);
    let ghost line = v@.subrange(a as int, b as int);
    if a == b || v[a] == '#' {
        return;
    }
    assert(line[0] == v@[a as int]);
    assert(line.last() == v@[b - 1]);
    if v[a] == '[' && v[b - 1] == ']' {
        let header = ['[', 'D', 'e', 's', 'k', 't', 'o', 'p', ' ', 'E', 'n', 't', 'r', 'y', ']'];
        assert(header@ =~= section_header());
        st.in_entry_group = same(v, a, b, &header);
        return;
    }
    if !st.in_entry_group {
        return;
    }
    let k = find_equals(v, a, b);
    if k == b {
        return;
    }
    assert(line.take(k - a) =~= v@.subrange(a as int, k as int));
    assert(line.skip(k - a + 1) =~= v@.subrange(k + 1, b as int));
    let (va, vb) = trim_bounds(v, k + 1, b);
    let type_key = ['T', 'y', 'p', 'e'];
    let name_key = ['N', 'a', 'm', 'e'];
    let comment_key = ['C', 'o', 'm', 'm', 'e', 'n', 't'];
    let generic_key = ['G', 'e', 'n', 'e', 'r', 'i', 'c', 'N', 'a', 'm', 'e'];
    let exec_key = ['E', 'x', 'e', 'c'];
    let icon_key = ['I', 'c', 'o', 'n'];
    let hidden_key = ['H', 'i', 'd', 'd', 'e', 'n'];
    let no_display_key = ['N', 'o', 'D', 'i', 's', 'p', 'l', 'a', 'y'];
    assert(type_key@ =~= key_type());
    assert(name_key@ =~= key_name());
    assert(comment_key@ =~= key_comment());
    assert(generic_key@ =~= key_generic_name());
    assert(exec_key@ =~= key_exec());
    assert(icon_key@ =~= key_icon());
    assert(hidden_key@ =~= key_hidden());
    assert(no_display_key@ =~= key_no_display());
    if same(v, a, k, &type_key) {
        st.entry_type = Some(text_between(content, va, vb));
    } else if same(v, a, k, &name_key) {
        st.name = Some(text_between(content, va, vb));
    } else if (same(v, a, k, &comment_key) || same(v, a, k, &generic_key)) && st.comment.is_none() {
        st.comment = Some(text_between(content, va, vb));
    } else if same(v, a, k, &exec_key) {
        st.command = Some(text_between(content, va, vb));
    } else if same(v, a, k, &icon_key) {
        st.icon = Some(text_between(content, va, vb));
    } else if same(v, a, k, &hidden_key) {
        st.hidden = is_true(v, va, vb);
    } else if same(v, a, k, &no_display_key) {
        st.no_display = is_true(v, va, vb);
    }
}


/// The ending that gives a file name the extension `desktop`.
pub open spec fn desktop_suffix() -> Seq<char> {
    seq!['.', 'd', 'e', 's', 'k', 't', 'o', 'p']
}

/// Whether a file name has the extension `desktop`: it ends in `.desktop`
/// and something stands before that dot (a name that is `.desktop` alone is
/// a hidden file without an extension).
pub open spec fn desktop_file_name(name: Seq<char>) -> bool {
    name.len() > desktop_suffix().len() && name.skip(name.len() - desktop_suffix().len())
        == desktop_suffix()
}

/// Whether the file name of a path (`None` when the path has none, as `/`
/// or `..`) marks a desktop file, which the index reads.
pub fn is_desktop_file_name(name: Option<&str>) -> (r: bool)
    ensures
        r == (name matches Some(n) && desktop_file_name(n@)),
{
    match name {
        None => false,
        Some(n) => {
            let v = chars_of(n);
            let suffix = ['.', 'd', 'e', 's', 'k', 't', 'o', 'p'];
            assert(suffix@ =~= desktop_suffix());
            if v.len() <= suffix.len() {
                return false;
            }
            let start = v.len() - suffix.len();
            assert(v@.subrange(start as int, v@.len() as int) =~= v@.skip(start as int));
            same(&v, start, v.len(), &suffix)
        },
    }
}

/// The entry that the desktop file at `path` with text `content` describes,
/// if any. Its id is [`stable_id`] of the path.
pub fn parse_desktop_entry(path: &str, content: &str) -> (r: Option<Entry>)
    ensures
        match desktop_entry(fnv1a(path.spec_bytes()), content@) {
            None => r is None,
            Some(m) => r matches Some(e) && e@ == m,
        },
{
    let v = chars_of(content);
    let mut st = Fields {
        in_entry_group: false,
        entry_type: None,
        name: None,
        comment: None,
        command: None,
        icon: None,
        hidden: false,
        no_display: false,
    };
    let mut pos: usize = 0;
    loop
        invariant_except_break
            read_lines(v@, 0, no_fields()) == read_lines(v@, pos as int, st@),
        invariant
            v@ == content@,
            pos <= v@.len(),
        ensures
            read_lines(v@, 0, no_fields()) == st@,
        decreases v@.len() - pos,
    {
        let mut e = pos;
        while e < v.len() && v[e] != '\n'
            invariant
                pos <= e <= v@.len(),
                line_end(v@, pos as int) == line_end(v@, e as int),
            decreases v@.len() - e,
        {
            e = e + 1;
        }
        let ghost before = st@;
        assert(line_end(v@, e as int) == e);
        read_one_line(content, &v, pos, e, &mut st);
        assert(read_lines(v@, pos as int, before) == read_lines(v@, e + 1, st@));
        if e == v.len() {
            assert(read_lines(v@, e + 1, st@) == st@);
            break;
        }
        pos = e + 1;
    }
    let id = stable_id(path);
    let application = ['A', 'p', 'p', 'l', 'i', 'c', 'a', 't', 'i', 'o', 'n'];
    assert(application@ =~= word_application());
    if st.hidden || st.no_display {
        return None;
    }
    let is_application = match &st.entry_type {
        Some(t) => {
            let tv = chars_of(t.as_str());
            assert(tv@.subrange(0, tv@.len() as int) =~= tv@);
            same(&tv, 0, tv.len(), &application)
        },
        None => false,
    };
    assert(is_application == (st@.entry_type == Some(word_application())));
    if !is_application {
        return None;
    }
    match st.name {
        None => None,
        Some(name) => Some(
            Entry {
                id,
                kind: EntryKind::Application,
                name,
                subtitle: st.comment,
                command: st.command,
                icon: st.icon,
            },
        ),
    }
}

/// The first `c` of `s` stands at [`first_index`], and none before it.
pub proof fn lemma_first_index(s: Seq<char>, c: char)
    ensures
        0 <= first_index(s, c) <= s.len(),
        first_index(s, c) < s.len() ==> s[first_index(s, c)] == c,
        forall|j: int| 0 <= j < first_index(s, c) ==> s[j] != c,
    decreases s.len(),
{
    if s.len() > 0 && s[0] != c {
        lemma_first_index(s.drop_first(), c);
        assert forall|j: int| 0 <= j < first_index(s, c) implies s[j] != c by {
            if j > 0 {
                assert(s[j] == s.drop_first()[j - 1]);
            }
        }
    }
}

/// `line` is a `Key=Value` line for `key`: it starts with `key` followed
/// directly by `=`.
pub open spec fn keyed_line(line: Seq<char>, key: Seq<char>) -> bool {
    &&& line.len() > key.len()
    &&& line.take(key.len() as int) == key
    &&& line[key.len() as int] == '='
}

/// For a key without `=`, a line is a `Key=Value` line for it exactly when
/// the text before its first `=` is the key.
proof fn lemma_keyed_line(line: Seq<char>, key: Seq<char>)
    requires
        forall|i: int| 0 <= i < key.len() ==> key[i] != '=',
    ensures
        keyed_line(line, key) <==> (first_index(line, '=') < line.len() && line.take(
            first_index(line, '='),
        ) == key),
        keyed_line(line, key) ==> first_index(line, '=') == key.len(),
{
    lemma_first_index(line, '=');
    let k = first_index(line, '=');
    if keyed_line(line, key) {
        if k < key.len() {
            assert(line.take(key.len() as int)[k] == key[k]);
        }
        assert(k == key.len());
    }
    if k < line.len() && line.take(k) == key {
        assert(key.len() == k);
        assert(line.take(key.len() as int) =~= key);
    }
}

/// What one line does to the fields, told key by key: a `[...]` line opens
/// a group (the entry group exactly when it is `[Desktop Entry]`); inside
/// the entry group, `Type=`, `Name=`, `Exec=` and `Icon=` lines set their
/// field to the trimmed value, `Comment=` and `GenericName=` lines set the
/// comment while it is unset, and `Hidden=` and `NoDisplay=` lines set their
/// flag to whether the value is `true` in any ASCII case. A key is matched
/// whole: `Name[de]=...` or `Name =...` sets nothing. Every other line, and
/// every line outside the entry group, leaves every field as it was.
#[verifier::rlimit(60)]
pub proof fn law_desktop_line(st: DesktopFields, raw: Seq<char>)
    ensures
        ({
            let line = trim(raw);
            let r = read_line(st, raw);
            let g = st.in_entry_group;
            &&& r.in_entry_group == if line.len() > 0 && line[0] == '[' && line.last() == ']' {
                line == seq!['[', 'D', 'e', 's', 'k', 't', 'o', 'p', ' ', 'E', 'n', 't', 'r', 'y', ']']
            } else {
                st.in_entry_group
            }
            &&& r.name == if g && keyed_line(line, seq!['N', 'a', 'm', 'e']) {
                Some(trim(line.skip(5)))
            } else {
                st.name
            }
            &&& r.entry_type == if g && keyed_line(line, seq!['T', 'y', 'p', 'e']) {
                Some(trim(line.skip(5)))
            } else {
                st.entry_type
            }
            &&& r.command == if g && keyed_line(line, seq!['E', 'x', 'e', 'c']) {
                Some(trim(line.skip(5)))
            } else {
                st.command
            }
            &&& r.icon == if g && keyed_line(line, seq!['I', 'c', 'o', 'n']) {
                Some(trim(line.skip(5)))
            } else {
                st.icon
            }
            &&& r.comment == if g && st.comment is None && keyed_line(
                line,
                seq!['C', 'o', 'm', 'm', 'e', 'n', 't'],
            ) {
                Some(trim(line.skip(8)))
            } else if g && st.comment is None && keyed_line(
                line,
                seq!['G', 'e', 'n', 'e', 'r', 'i', 'c', 'N', 'a', 'm', 'e'],
            ) {
                Some(trim(line.skip(12)))
            } else {
                st.comment
            }
            &&& r.hidden == if g && keyed_line(line, seq!['H', 'i', 'd', 'd', 'e', 'n']) {
                eq_ignore_ascii_case(trim(line.skip(7)), seq!['t', 'r', 'u', 'e'])
            } else {
                st.hidden
            }
            &&& r.no_display == if g && keyed_line(
                line,
                seq!['N', 'o', 'D', 'i', 's', 'p', 'l', 'a', 'y'],
            ) {
                eq_ignore_ascii_case(trim(line.skip(10)), seq!['t', 'r', 'u', 'e'])
            } else {
                st.no_display
            }
        }),
{
    let line = trim(raw);
    let keys = seq![
        key_type(),
        key_name(),
        key_comment(),
        key_generic_name(),
        key_exec(),
        key_icon(),
        key_hidden(),
        key_no_display(),
    ];
    assert forall|n: int| 0 <= n < keys.len() implies {
        &&& forall|i: int| 0 <= i < keys[n].len() ==> keys[n][i] != '='
        &&& (keyed_line(line, keys[n]) ==> line[0] == keys[n][0] && keys[n][0] != '#'
            && keys[n][0] != '[')
    } by {
        if keyed_line(line, keys[n]) {
            assert(line.take(keys[n].len() as int)[0] == line[0]);
        }
    }
    lemma_keyed_line(line, key_type());
    lemma_keyed_line(line, key_name());
    lemma_keyed_line(line, key_comment());
    lemma_keyed_line(line, key_generic_name());
    lemma_keyed_line(line, key_exec());
    lemma_keyed_line(line, key_icon());
    lemma_keyed_line(line, key_hidden());
    lemma_keyed_line(line, key_no_display());
    assert(keys[0] == key_type());
    assert(keys[1] == key_name());
    assert(keys[2] == key_comment());
    assert(keys[3] == key_generic_name());
    assert(keys[4] == key_exec());
    assert(keys[5] == key_icon());
    assert(keys[6] == key_hidden());
    assert(keys[7] == key_no_display());
}

/// FNV-1a folds every byte of its input, in order: the hash of nothing is
/// the offset basis `0xcbf29ce484222325`, and appending a byte `x` XORs it
/// into the hash and multiplies by the prime `0x100000001b3`, wrapping.
pub proof fn law_fnv1a_every_byte(b: Seq<u8>, x: u8)
    ensures
        fnv1a(Seq::<u8>::empty()) == 0xcbf2_9ce4_8422_2325u64,
        fnv1a(b.push(x)) == ((fnv1a(b) ^ (x as u64)) as u64).wrapping_mul(
            0x0000_0100_0000_01b3u64,
        ),
{
    assert(b.push(x).drop_last() =~= b);
}

/// Where a line ends in `x + y`, past `x`, is where it ends in `y`, moved by
/// the length of `x`.
proof fn lemma_line_end_shift(x: Seq<char>, y: Seq<char>, p: int)
    requires
        0 <= p <= y.len(),
    ensures
        line_end(x + y, x.len() + p) == x.len() + line_end(y, p),
    decreases y.len() - p,
{
    if p < y.len() {
        assert((x + y)[x.len() + p] == y[p]);
        if y[p] != '\n' {
            lemma_line_end_shift(x, y, p + 1);
        }
    }
}

/// Reading `x + y` from a position past `x` reads `y` from there.
proof fn lemma_read_lines_shift(x: Seq<char>, y: Seq<char>, p: int, st: DesktopFields)
    requires
        0 <= p <= y.len() + 1,
    ensures
        read_lines(x + y, x.len() + p, st) == read_lines(y, p, st),
    decreases y.len() + 1 - p,
{
    if p <= y.len() {
        lemma_line_end_shift(x, y, p);
        lemma_line_end_bounds(y, p);
        let e = line_end(y, p);
        assert((x + y).subrange(x.len() + p, x.len() + e) =~= y.subrange(p, e));
        lemma_read_lines_shift(x, y, e + 1, read_line(st, y.subrange(p, e)));
    }
}

/// A run without line breaks does not end a line.
proof fn lemma_line_end_run(s: Seq<char>, p: int, q: int)
    requires
        0 <= p <= q <= s.len(),
        forall|i: int| p <= i < q ==> s[i] != '\n',
    ensures
        line_end(s, p) == line_end(s, q),
    decreases q - p,
{
    if p < q {
        lemma_line_end_run(s, p + 1, q);
    }
}

/// A desktop file is read line by line, in order, every line once: a text
/// without a line break is one line, and a line followed by a line break
/// and more text is read before that text.
pub proof fn law_read_lines_in_order(line: Seq<char>, rest: Seq<char>, st: DesktopFields)
    requires
        forall|i: int| 0 <= i < line.len() ==> line[i] != '\n',
    ensures
        read_lines(line, 0, st) == read_line(st, line),
        read_lines(line + seq!['\n'] + rest, 0, st) == read_lines(rest, 0, read_line(st, line)),
{
    lemma_line_end_run(line, 0, line.len() as int);
    assert(line.subrange(0, line.len() as int) =~= line);
    assert(read_lines(line, line.len() as int + 1, read_line(st, line)) == read_line(st, line));
    let head = line + seq!['\n'];
    let s = head + rest;
    assert forall|i: int| 0 <= i < line.len() implies s[i] != '\n' by {
        assert(s[i] == line[i]);
    }
    lemma_line_end_run(s, 0, line.len() as int);
    assert(s[line.len() as int] == '\n');
    assert(s.subrange(0, line.len() as int) =~= line);
    lemma_read_lines_shift(head, rest, 0, read_line(st, line));
}

/// `trim_start` drops exactly the leading run of white space.
proof fn lemma_trim_start(s: Seq<char>) -> (a: int)
    ensures
        0 <= a <= s.len(),
        trim_start(s) == s.skip(a),
        forall|i: int| 0 <= i < a ==> is_space(#[trigger] s[i]),
        a < s.len() ==> !is_space(s[a]),
    decreases s.len(),
{
    if s.len() > 0 && is_space(s[0]) {
        let a = lemma_trim_start(s.drop_first());
        assert(s.drop_first().skip(a) =~= s.skip(a + 1));
        assert forall|i: int| 0 <= i < a + 1 implies is_space(#[trigger] s[i]) by {
            if i > 0 {
                assert(s[i] == s.drop_first()[i - 1]);
            }
        }
        a + 1
    } else {
        assert(s.skip(0) =~= s);
        0
    }
}

/// `trim_end` drops exactly the trailing run of white space.
proof fn lemma_trim_end(s: Seq<char>) -> (b: int)
    ensures
        0 <= b <= s.len(),
        trim_end(s) == s.take(b),
        forall|i: int| b <= i < s.len() ==> is_space(#[trigger] s[i]),
        b > 0 ==> !is_space(s[b - 1]),
    decreases s.len(),
{
    if s.len() > 0 && is_space(s.last()) {
        let b = lemma_trim_end(s.drop_last());
        assert(s.drop_last().take(b) =~= s.take(b));
        assert forall|i: int| b <= i < s.len() implies is_space(#[trigger] s[i]) by {
            if i < s.len() - 1 {
                assert(s[i] == s.drop_last()[i]);
            }
        }
        b
    } else {
        assert(s.take(s.len() as int) =~= s);
        s.len() as int
    }
}

/// Trimming removes the white space at both ends and nothing else: the
/// result is the part of `s` between a leading and a trailing run of white
/// space, and it neither starts nor ends with white space.
pub proof fn law_trim(s: Seq<char>)
    ensures
        exists|a: int, b: int|
            0 <= a <= b <= s.len() && trim(s) == s.subrange(a, b) && (forall|i: int|
                0 <= i < a ==> is_space(#[trigger] s[i])) && (forall|i: int|
                b <= i < s.len() ==> is_space(#[trigger] s[i])),
        trim(s).len() > 0 ==> !is_space(trim(s)[0]) && !is_space(trim(s).last()),
{
    let a = lemma_trim_start(s);
    let t = s.skip(a);
    let b = lemma_trim_end(t);
    assert(t.take(b) =~= s.subrange(a, a + b));
    assert forall|i: int| a + b <= i < s.len() implies is_space(#[trigger] s[i]) by {
        assert(s[i] == t[i - a]);
    }
    if b > 0 {
        assert(trim(s)[0] == s[a]);
        assert(trim(s).last() == t[b - 1]);
    }
    assert(0 <= a <= a + b <= s.len() && trim(s) == s.subrange(a, a + b));
}

} // verus!
