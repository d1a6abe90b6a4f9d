//! The plugin's settings, read from its INI file.
//!
//! Sections and keys are compared without regard to ASCII case, and a
//! value written in double quotes loses one pair of them, as the Win32
//! profile functions do.
use vstd::prelude::*;
use crate::text::{
    all_digits, ascii_upper, decimal, digit_char, digit_value, is_white, signed_decimal, trim_end, trim_start, chars_eq, chars_of, decode_utf8_lossy, digits_value, is_digit, string_from_chars,
    trim, trim_bounds, upper, upper_chars, utf8_lossy,
};

verus! {

/// The settings of the `[GLOBAL]` section.
#[derive(Debug, Clone)]
pub struct Config {
    pub server_host: String,
    pub server_port: String,
    pub decode_b25: i32,
    pub priority: i32,
    pub service_split: i32,
}

/// The index of the first `c` in `s`.
pub open spec fn find_char(s: Seq<char>, c: char) -> Option<int>
    decreases s.len(),
{
    if s.len() == 0 {
        None
    } else if s[0] == c {
        Some(0)
    } else {
        match find_char(s.drop_first(), c) {
            Some(i) => Some(i + 1),
            None => None,
        }
    }
}

/// `s` without one pair of enclosing double quotes, if it has them.
pub open spec fn unquote(s: Seq<char>) -> Seq<char> {
    if s.len() >= 2 && s[0] == '"' && s.last() == '"' {
        s.subrange(1, s.len() - 1)
    } else {
        s
    }
}

/// The number of ASCII digits at the start of `s`.
pub open spec fn digit_run(s: Seq<char>) -> nat
    decreases s.len(),
{
    if s.len() > 0 && is_digit(s[0]) {
        1 + digit_run(s.drop_first())
    } else {
        0
    }
}

/// The integer at the start of `s` once trimmed: an optional sign and the
/// digits after it, read as an `i32`; `None` when there is no digit or
/// the number does not fit.
pub open spec fn leading_int(s: Seq<char>) -> Option<i32> {
    let t = trim(s);
    let signed = t.len() > 0 && (t[0] == '+' || t[0] == '-');
    let start: int = if signed { 1 } else { 0 };
    let d = digit_run(t.subrange(start, t.len() as int));
    let v = digits_value(t.subrange(start, start + d));
    let n = if signed && t[0] == '-' { -v } else { v as int };
    if d == 0 || n < i32::MIN || n > i32::MAX {
        None
    } else {
        Some(n as i32)
    }
}

/// `u16::from_str`: an optional `+` and at least one ASCII digit, and
/// nothing else, of value at most `u16::MAX`.
pub open spec fn parse_u16(s: Seq<char>) -> Option<u16> {
    let body = if s.len() > 0 && s[0] == '+' { s.drop_first() } else { s };
    if body.len() > 0 && all_digits(body) && digits_value(body) <= u16::MAX {
        Some(digits_value(body) as u16)
    } else {
        None
    }
}

/// What the reader keeps while it goes through the lines: the current
/// section (upper-cased) and the values read so far, keyed by upper-cased
/// section and key.
pub struct IniModel {
    pub current: Seq<char>,
    pub values: Map<(Seq<char>, Seq<char>), Seq<char>>,
}

/// The effect of one line: blank lines and `;` or `#` comments do
/// nothing, `[name]` opens a section, and `key=value` sets a value in the
/// current section, the last setting of a key winning. Other lines are
/// ignored.
pub open spec fn ini_line(st: IniModel, raw: Seq<char>) -> IniModel {
    let line = trim(raw);
    if line.len() == 0 || line[0] == ';' || line[0] == '#' {
        st
    } else if line[0] == '[' && line.last() == ']' {
        IniModel { current: upper(trim(line.subrange(1, line.len() - 1))), values: st.values }
    } else {
        match find_char(line, '=') {
            Some(eq) => IniModel {
                current: st.current,
                values: st.values.insert(
                    (st.current, upper(trim(line.subrange(0, eq)))),
                    unquote(trim(line.subrange(eq + 1, line.len() as int))),
                ),
            },
            None => st,
        }
    }
}

/// The state after every complete line of `text`, and the incomplete
/// line that follows them.
pub open spec fn ini_scan(text: Seq<char>) -> (IniModel, Seq<char>)
    decreases text.len(),
{
    if text.len() == 0 {
        (IniModel { current: Seq::empty(), values: Map::empty() }, Seq::empty())
    } else {
        let (st, line) = ini_scan(text.drop_last());
        if text.last() == '\n' {
            (ini_line(st, line), Seq::empty())
        } else {
            (st, line.push(text.last()))
        }
    }
}

/// The values an INI text sets.
pub open spec fn ini_values(text: Seq<char>) -> Map<(Seq<char>, Seq<char>), Seq<char>> {
    let (st, line) = ini_scan(text);
    ini_line(st, line).values
}

/// The value of `key` in `section`, both without regard to ASCII case.
pub open spec fn ini_lookup(
    m: Map<(Seq<char>, Seq<char>), Seq<char>>,
    section: Seq<char>,
    key: Seq<char>,
) -> Option<Seq<char>> {
    let k = (upper(section), upper(key));
    if m.dom().contains(k) {
        Some(m[k])
    } else {
        None
    }
}

/// `get_string`: the value, or `default` when it is not set.
pub open spec fn ini_string(
    m: Map<(Seq<char>, Seq<char>), Seq<char>>,
    section: Seq<char>,
    key: Seq<char>,
    default: Seq<char>,
) -> Seq<char> {
    match ini_lookup(m, section, key) {
        Some(v) => v,
        None => default,
    }
}

/// `get_int`: the integer the value starts with, or `default` when the
/// value is not set or starts with no integer.
pub open spec fn ini_int(
    m: Map<(Seq<char>, Seq<char>), Seq<char>>,
    section: Seq<char>,
    key: Seq<char>,
    default: i32,
) -> i32 {
    match ini_lookup(m, section, key) {
        Some(v) => match leading_int(v) {
            Some(n) => n,
            None => default,
        },
        None => default,
    }
}

/// Whether `c` is an ASCII letter.
pub open spec fn is_ascii_letter(c: char) -> bool {
    ('a' <= c && c <= 'z') || ('A' <= c && c <= 'Z')
}

/// Whether a line sets a value: once trimmed it is neither blank, nor a
/// comment, nor a section header.
pub open spec fn sets_value(line: Seq<char>) -> bool {
    let t = trim(line);
    t.len() > 0 && t[0] != ';' && t[0] != '#' && !(t[0] == '[' && t.last() == ']')
}

/// Whether two lines differ at most in ASCII letter case, with the value
/// of a setting (what follows the first `=` of the trimmed line) the same.
pub open spec fn line_case_variant(l1: Seq<char>, l2: Seq<char>) -> bool {
    &&& upper(l1) == upper(l2)
    &&& sets_value(l1) ==> match find_char(trim(l1), '=') {
        Some(e) => trim(l1).subrange(e + 1, trim(l1).len() as int) == trim(l2).subrange(
            e + 1,
            trim(l2).len() as int,
        ),
        None => true,
    }
}

/// Whether `t[a..b]` is a whole line of `t`.
pub open spec fn is_line(t: Seq<char>, a: int, b: int) -> bool {
    &&& 0 <= a <= b <= t.len()
    &&& (a == 0 || t[a - 1] == '\n')
    &&& (b == t.len() || t[b] == '\n')
    &&& forall|i: int| a <= i < b ==> t[i] != '\n'
}

/// Whether two INI texts differ only in the ASCII letter case of section
/// names and keys (and of comments and ignored lines): line for line, the
/// values of settings are the same.
pub open spec fn same_but_name_case(t1: Seq<char>, t2: Seq<char>) -> bool {
    &&& upper(t1) == upper(t2)
    &&& forall|a: int, b: int|
        is_line(t1, a, b) ==> line_case_variant(#[trigger] t1.subrange(a, b), t2.subrange(a, b))
}

/// Where the line that holds position `n` starts.
pub open spec fn line_start(t: Seq<char>, n: int) -> int
    decreases n,
{
    if n <= 0 {
        0
    } else if t[n - 1] == '\n' {
        n
    } else {
        line_start(t, n - 1)
    }
}

/// Characters with the same upper-case form are the same, unless both are
/// letters.
proof fn lemma_upper_char(a: char, b: char)
    requires
        ascii_upper(a) == ascii_upper(b),
    ensures
        is_ascii_letter(a) == is_ascii_letter(b),
        !is_ascii_letter(a) ==> a == b,
{
}

/// Texts with the same upper-case form agree in length and, position by
/// position, in their upper-case forms.
proof fn lemma_upper_pointwise(x: Seq<char>, y: Seq<char>)
    requires
        upper(x) == upper(y),
    ensures
        x.len() == y.len(),
        forall|i: int| 0 <= i < x.len() ==> ascii_upper(#[trigger] x[i]) == ascii_upper(y[i]),
{
    assert(x.len() == upper(x).len());
    assert(y.len() == upper(y).len());
    assert forall|i: int| 0 <= i < x.len() implies ascii_upper(#[trigger] x[i]) == ascii_upper(
        y[i],
    ) by {
        assert(upper(x)[i] == ascii_upper(x[i]));
        assert(upper(y)[i] == ascii_upper(y[i]));
    }
}

/// Texts with the same upper-case form are trimmed at the same places.
proof fn lemma_trim_same(x: Seq<char>, y: Seq<char>) -> (k: int)
    requires
        upper(x) == upper(y),
    ensures
        trim(x).len() == trim(y).len(),
        0 <= k,
        k + trim(x).len() <= x.len(),
        trim(x) == x.subrange(k, k + trim(x).len()),
        trim(y) == y.subrange(k, k + trim(y).len()),
        upper(trim(x)) == upper(trim(y)),
{
    lemma_upper_pointwise(x, y);
    assert forall|i: int| 0 <= i < x.len() implies is_white(#[trigger] x[i]) == is_white(y[i]) by {
        lemma_upper_char(x[i], y[i]);
    }
    let ka = lemma_trim_start_index(x);
    let kb = lemma_trim_start_index(y);
    assert(ka == kb) by {
        if ka < kb {
            assert(is_white(y[ka]));
        } else if kb < ka {
            assert(is_white(x[kb]));
        }
    }
    let u = trim_start(x);
    let w = trim_start(y);
    let ea = lemma_trim_end_index(u);
    let eb = lemma_trim_end_index(w);
    assert(ea == eb) by {
        if ea < eb {
            assert(w[eb - 1] == y[eb - 1 + ka]);
            assert(u[eb - 1] == x[eb - 1 + ka]);
        } else if eb < ea {
            assert(w[ea - 1] == y[ea - 1 + ka]);
            assert(u[ea - 1] == x[ea - 1 + ka]);
        }
    }
    assert(trim(x) =~= x.subrange(ka, ka + ea));
    assert(trim(y) =~= y.subrange(ka, ka + ea));
    assert(upper(trim(x)) =~= upper(trim(y))) by {
        assert forall|i: int| 0 <= i < ea implies #[trigger] upper(trim(x))[i] == upper(
            trim(y),
        )[i] by {
            assert(trim(x)[i] == x[ka + i]);
            assert(trim(y)[i] == y[ka + i]);
        }
    }
    ka
}

/// Texts with the same upper-case form have their first `=` at the same
/// place.
proof fn lemma_find_same(x: Seq<char>, y: Seq<char>)
    requires
        upper(x) == upper(y),
    ensures
        find_char(x, '=') == find_char(y, '='),
    decreases x.len(),
{
    lemma_upper_pointwise(x, y);
    if x.len() > 0 {
        lemma_upper_char(x[0], y[0]);
        assert(upper(x.drop_first()) =~= upper(y.drop_first())) by {
            assert forall|i: int| 0 <= i < x.len() - 1 implies #[trigger] upper(x.drop_first())[i]
                == upper(y.drop_first())[i] by {
                assert(x.drop_first()[i] == x[i + 1]);
                assert(y.drop_first()[i] == y[i + 1]);
            }
        }
        lemma_find_same(x.drop_first(), y.drop_first());
    }
}

/// The upper-case forms of equal-form texts agree on every part.
proof fn lemma_upper_subrange(x: Seq<char>, y: Seq<char>, a: int, b: int)
    requires
        upper(x) == upper(y),
        0 <= a <= b <= x.len(),
    ensures
        upper(x.subrange(a, b)) == upper(y.subrange(a, b)),
{
    lemma_upper_pointwise(x, y);
    assert(upper(x.subrange(a, b)) =~= upper(y.subrange(a, b))) by {
        assert forall|i: int| 0 <= i < b - a implies #[trigger] upper(x.subrange(a, b))[i]
            == upper(y.subrange(a, b))[i] by {
            assert(x.subrange(a, b)[i] == x[a + i]);
            assert(y.subrange(a, b)[i] == y[a + i]);
        }
    }
}

/// Lines that differ only in the case of names have the same effect.
proof fn lemma_line_same(st: IniModel, l1: Seq<char>, l2: Seq<char>)
    requires
        line_case_variant(l1, l2),
    ensures
        ini_line(st, l1) == ini_line(st, l2),
{
    lemma_trim_same(l1, l2);
    let t1 = trim(l1);
    let t2 = trim(l2);
    let n = t1.len() as int;
    lemma_upper_pointwise(t1, t2);
    if n > 0 {
        lemma_upper_char(t1[0], t2[0]);
        lemma_upper_char(t1[n - 1], t2[n - 1]);
        if t1[0] == '[' && t1[n - 1] == ']' && n >= 2 {
            lemma_upper_subrange(t1, t2, 1, n - 1);
            lemma_trim_same(t1.subrange(1, n - 1), t2.subrange(1, n - 1));
        } else if t1[0] != ';' && t1[0] != '#' {
            lemma_find_same(t1, t2);
            match find_char(t1, '=') {
                Some(e) => {
                    lemma_find_char_bounds(t1, '=');
                    lemma_upper_subrange(t1, t2, 0, e);
                    lemma_trim_same(t1.subrange(0, e), t2.subrange(0, e));
                },
                None => {},
            }
        }
    }
}

/// A character found is found inside the text.
proof fn lemma_find_char_bounds(s: Seq<char>, c: char)
    ensures
        match find_char(s, c) {
            Some(i) => 0 <= i < s.len() && s[i] == c,
            None => true,
        },
    decreases s.len(),
{
    if s.len() > 0 && s[0] != c {
        lemma_find_char_bounds(s.drop_first(), c);
    }
}

/// The reader's unfinished line is the text since the last line break.
proof fn lemma_scan_pending(t: Seq<char>, n: int)
    requires
        0 <= n <= t.len(),
    ensures
        0 <= line_start(t, n) <= n,
        line_start(t, n) == 0 || t[line_start(t, n) - 1] == '\n',
        forall|i: int| line_start(t, n) <= i < n ==> t[i] != '\n',
        ini_scan(t.subrange(0, n)).1 == t.subrange(line_start(t, n), n),
    decreases n,
{
    if n == 0 {
        assert(t.subrange(0, 0) =~= Seq::<char>::empty());
    } else {
        lemma_scan_pending(t, n - 1);
        assert(t.subrange(0, n).drop_last() =~= t.subrange(0, n - 1));
        let ls = line_start(t, n - 1);
        if t[n - 1] == '\n' {
            assert(t.subrange(n, n) =~= Seq::<char>::empty());
        } else {
            assert(t.subrange(ls, n - 1).push(t[n - 1]) =~= t.subrange(ls, n));
        }
    }
}

/// Reading two such texts passes through the same states.
proof fn lemma_scan_same(t1: Seq<char>, t2: Seq<char>, n: int)
    requires
        same_but_name_case(t1, t2),
        0 <= n <= t1.len(),
    ensures
        ini_scan(t1.subrange(0, n)).0 == ini_scan(t2.subrange(0, n)).0,
        line_start(t1, n) == line_start(t2, n),
    decreases n,
{
    lemma_upper_pointwise(t1, t2);
    if n > 0 {
        lemma_scan_same(t1, t2, n - 1);
        lemma_scan_pending(t1, n - 1);
        lemma_scan_pending(t2, n - 1);
        lemma_upper_char(t1[n - 1], t2[n - 1]);
        assert(t1.subrange(0, n).drop_last() =~= t1.subrange(0, n - 1));
        assert(t2.subrange(0, n).drop_last() =~= t2.subrange(0, n - 1));
        if t1[n - 1] == '\n' {
            let ls = line_start(t1, n - 1);
            assert(is_line(t1, ls, n - 1));
            assert(line_case_variant(t1.subrange(ls, n - 1), t2.subrange(ls, n - 1)));
            lemma_line_same(
                ini_scan(t1.subrange(0, n - 1)).0,
                t1.subrange(ls, n - 1),
                t2.subrange(ls, n - 1),
            );
        }
    }
}

/// Two INI texts that differ only in the ASCII letter case of section
/// names and keys set the same values: sections and keys are read without
/// regard to case, while values keep theirs.
pub proof fn lemma_name_case_ignored(t1: Seq<char>, t2: Seq<char>)
    requires
        same_but_name_case(t1, t2),
    ensures
        ini_values(t1) == ini_values(t2),
        forall|s: Seq<char>, k: Seq<char>|
            ini_lookup(ini_values(t1), s, k) == ini_lookup(ini_values(t2), s, k),
{
    lemma_upper_pointwise(t1, t2);
    let n = t1.len() as int;
    lemma_scan_same(t1, t2, n);
    lemma_scan_pending(t1, n);
    lemma_scan_pending(t2, n);
    assert(t1.subrange(0, n) =~= t1);
    assert(t2.subrange(0, n) =~= t2);
    let ls = line_start(t1, n);
    assert(is_line(t1, ls, n));
    assert(line_case_variant(t1.subrange(ls, n), t2.subrange(ls, n)));
    lemma_line_same(ini_scan(t1).0, t1.subrange(ls, n), t2.subrange(ls, n));
}

/// Sections and keys are found without regard to ASCII case.
pub proof fn lemma_lookup_ignores_case(
    m: Map<(Seq<char>, Seq<char>), Seq<char>>,
    s1: Seq<char>,
    k1: Seq<char>,
    s2: Seq<char>,
    k2: Seq<char>,
)
    requires
        upper(s1) == upper(s2),
        upper(k1) == upper(k2),
    ensures
        ini_lookup(m, s1, k1) == ini_lookup(m, s2, k2),
{
}

/// The reader's state after `text`, read from the state `st` on, and the
/// incomplete line that follows.
pub open spec fn ini_scan_from(st: IniModel, text: Seq<char>) -> (IniModel, Seq<char>)
    decreases text.len(),
{
    if text.len() == 0 {
        (st, Seq::empty())
    } else {
        let (s, line) = ini_scan_from(st, text.drop_last());
        if text.last() == '\n' {
            (ini_line(s, line), Seq::empty())
        } else {
            (s, line.push(text.last()))
        }
    }
}

/// After a whole number of lines, the rest of a text is read on from the
/// state they leave.
proof fn lemma_scan_concat(pre: Seq<char>, rest: Seq<char>)
    requires
        pre.len() == 0 || pre.last() == '\n',
    ensures
        ini_scan(pre + rest) == ini_scan_from(ini_scan(pre).0, rest),
    decreases rest.len(),
{
    if rest.len() == 0 {
        assert(pre + rest =~= pre);
        if pre.len() > 0 {
            assert(pre.drop_last().push(pre.last()) =~= pre);
        }
    } else {
        lemma_scan_concat(pre, rest.drop_last());
        assert((pre + rest).drop_last() =~= pre + rest.drop_last());
        assert((pre + rest).last() == rest.last());
    }
}

/// A blank line or a comment changes nothing: the section stays open and
/// no value is set.
pub proof fn lemma_blank_or_comment_line(st: IniModel, l: Seq<char>)
    requires
        trim(l).len() == 0 || trim(l)[0] == ';' || trim(l)[0] == '#',
    ensures
        ini_line(st, l) == st,
{
}

/// Taking a blank or comment line out of an INI text changes none of the
/// values it sets: a setting after it still belongs to the section opened
/// before it.
pub proof fn lemma_blank_or_comment_line_ignored(
    before: Seq<char>,
    line: Seq<char>,
    after: Seq<char>,
)
    requires
        before.len() == 0 || before.last() == '\n',
        forall|i: int| 0 <= i < line.len() ==> line[i] != '\n',
        trim(line).len() == 0 || trim(line)[0] == ';' || trim(line)[0] == '#',
    ensures
        ini_values(before + line.push('\n') + after) == ini_values(before + after),
{
    let pre = before + line.push('\n');
    lemma_scan_append(before, line);
    assert(before.len() == 0 ==> ini_scan(before).1 == Seq::<char>::empty());
    if before.len() > 0 {
        assert(before.drop_last().push(before.last()) =~= before);
    }
    assert(ini_scan(before).1 + line =~= line);
    assert(pre.drop_last() =~= before + line);
    assert(pre.last() == '\n');
    assert(ini_scan(pre).0 == ini_line(ini_scan(before).0, line));
    lemma_blank_or_comment_line(ini_scan(before).0, line);
    lemma_scan_concat(pre, after);
    lemma_scan_concat(before, after);
    assert(before + line.push('\n') + after =~= pre + after);
}

/// Text without a line break adds to the incomplete last line.
proof fn lemma_scan_append(t: Seq<char>, l: Seq<char>)
    requires
        forall|i: int| 0 <= i < l.len() ==> l[i] != '\n',
    ensures
        ini_scan(t + l) == (ini_scan(t).0, ini_scan(t).1 + l),
    decreases l.len(),
{
    if l.len() == 0 {
        assert(t + l =~= t);
        assert(ini_scan(t).1 + l =~= ini_scan(t).1);
    } else {
        lemma_scan_append(t, l.drop_last());
        assert((t + l).drop_last() =~= t + l.drop_last());
        assert(ini_scan(t).1 + l =~= (ini_scan(t).1 + l.drop_last()).push(l.last()));
    }
}

/// A setting written on the last line of a text (after a line break, or
/// as the whole text) takes effect whatever the lines before it set: the
/// key, trimmed and upper-cased, gets the value, trimmed and unquoted, in
/// the section open at that point.
pub proof fn lemma_last_setting_wins(before: Seq<char>, key: Seq<char>, value: Seq<char>)
    requires
        before.len() == 0 || before.last() == '\n',
        forall|i: int| 0 <= i < key.len() ==> key[i] != '\n' && key[i] != '=',
        forall|i: int| 0 <= i < value.len() ==> value[i] != '\n',
        trim(key).len() > 0,
        trim(key)[0] != ';' && trim(key)[0] != '#' && trim(key)[0] != '[',
    ensures
        ({
            let line = key.push('=') + value;
            let section = ini_scan(before).0.current;
            let m = ini_values(before + line);
            &&& m.dom().contains((section, upper(trim(key))))
            &&& m[(section, upper(trim(key)))] == unquote(trim(value))
        }),
{
    let line = key.push('=') + value;
    assert forall|i: int| 0 <= i < line.len() implies line[i] != '\n' by {
        if i < key.len() {
            assert(line[i] == key[i]);
        } else if i > key.len() {
            assert(line[i] == value[i - key.len() - 1]);
        }
    }
    lemma_scan_append(before, line);
    assert(ini_scan(before).1 == Seq::<char>::empty()) by {
        if before.len() > 0 {
            assert(before.drop_last().push(before.last()) =~= before);
        }
    }
    assert(Seq::<char>::empty() + line =~= line);
    let k0 = lemma_trim_start_index(key);
    let kk = trim_start(key);
    assert(kk.len() > 0) by {
        if kk.len() == 0 {
            assert(trim(key) == trim_end(kk));
        }
    }
    assert(line =~= key + (seq!['='] + value));
    lemma_trim_start_append(key, seq!['='] + value);
    assert(trim_start(line) =~= kk.push('=') + value);
    lemma_trim_end_after(kk.push('='), value);
    let tl = trim(line);
    assert(tl == kk.push('=') + trim_end(value));
    let ke = lemma_trim_end_index(kk);
    assert(trim(key) == kk.subrange(0, ke));
    assert(tl[0] == kk[0]);
    assert(tl[0] == trim(key)[0]);
    assert forall|i: int| 0 <= i < kk.len() implies kk[i] != '=' by {
        assert(kk[i] == key[i + k0]);
    }
    lemma_find_char_skip(kk, seq!['='] + trim_end(value), '=');
    assert(tl =~= kk + (seq!['='] + trim_end(value)));
    assert(find_char(tl, '=') == Some(kk.len() as int));
    assert(tl.subrange(0, kk.len() as int) =~= kk);
    assert(tl.subrange(kk.len() as int + 1, tl.len() as int) =~= trim_end(value));
    lemma_trim_start_idem(key);
    lemma_trim_commute(value);
    lemma_trim_end_idem(trim_start(value));
}

/// The digit character for `d` is a digit worth `d`.
proof fn lemma_digit_char(d: nat)
    requires
        d < 10,
    ensures
        is_digit(digit_char(d)),
        digit_value(digit_char(d)) == d,
{
}

/// The decimal writing of `n` is a non-empty run of digits worth `n`.
proof fn lemma_decimal_digits(n: nat)
    ensures
        decimal(n).len() >= 1,
        all_digits(decimal(n)),
        digits_value(decimal(n)) == n,
    decreases n,
{
    lemma_digit_char(n % 10);
    if n < 10 {
        assert(n % 10 == n);
        assert(decimal(n).drop_last() =~= Seq::<char>::empty());
        assert(digits_value(decimal(n)) == digits_value(decimal(n).drop_last()) * 10 + digit_value(decimal(n).last()));
    } else {
        lemma_decimal_digits(n / 10);
        let s = decimal(n / 10);
        let t = decimal(n);
        assert(t == s.push(digit_char(n % 10)));
        assert(t.drop_last() =~= s);
        assert(digits_value(t) == digits_value(s) * 10 + digit_value(t.last()));
        assert(n == (n / 10) * 10 + n % 10);
        assert forall|i: int| 0 <= i < t.len() implies #[trigger] is_digit(t[i]) by {
            if i < s.len() {
                assert(t[i] == s[i]);
            }
        }
    }
}

/// A run of digits is read whole.
proof fn lemma_digit_run_all(s: Seq<char>)
    requires
        all_digits(s),
    ensures
        digit_run(s) == s.len(),
    decreases s.len(),
{
    if s.len() > 0 {
        assert(is_digit(s[0]));
        assert forall|i: int| 0 <= i < s.drop_first().len() implies #[trigger] is_digit(
            s.drop_first()[i],
        ) by {
            assert(s.drop_first()[i] == s[i + 1]);
        }
        lemma_digit_run_all(s.drop_first());
    }
}

/// A text that starts and ends with a character other than white space
/// is its own trimmed form.
proof fn lemma_trim_tight(s: Seq<char>)
    requires
        s.len() > 0,
        !is_white(s[0]),
        !is_white(s.last()),
    ensures
        trim(s) == s,
{
}

/// An `i32` written in decimal (as requests carry the configured
/// integers) reads back as itself with the INI integer reader.
pub proof fn lemma_signed_decimal_reads_back(n: i32)
    ensures
        leading_int(signed_decimal(n as int)) == Some(n),
{
    let m: nat = if n < 0 { (-(n as int)) as nat } else { n as nat };
    lemma_decimal_digits(m);
    lemma_digit_run_all(decimal(m));
    let d = decimal(m);
    let t = signed_decimal(n as int);
    assert(is_digit(d[0]));
    assert(is_digit(d.last()));
    if n < 0 {
        assert(t == seq!['-'] + d);
        assert(t.last() == d.last());
        lemma_trim_tight(t);
        assert(t.subrange(1, t.len() as int) =~= d);
        assert(t.subrange(1, 1 + d.len() as int) =~= d);
    } else {
        assert(t == d);
        lemma_trim_tight(t);
        assert(t.subrange(0, t.len() as int) =~= d);
        assert(t.subrange(0, d.len() as int) =~= d);
    }
}

/// A port written in decimal reads back as itself.
pub proof fn lemma_decimal_port_reads_back(p: u16)
    ensures
        parse_u16(decimal(p as nat)) == Some(p),
{
    lemma_decimal_digits(p as nat);
    assert(is_digit(decimal(p as nat)[0]));
}

/// `trim_start(v)` is `v` from its first non-white character on.
proof fn lemma_trim_start_index(v: Seq<char>) -> (k: int)
    ensures
        0 <= k <= v.len(),
        trim_start(v) == v.subrange(k, v.len() as int),
        forall|i: int| 0 <= i < k ==> is_white(#[trigger] v[i]),
        k < v.len() ==> !is_white(v[k]),
    decreases v.len(),
{
    if v.len() > 0 && is_white(v[0]) {
        let k1 = lemma_trim_start_index(v.drop_first());
        assert(v.drop_first().subrange(k1, v.len() - 1) =~= v.subrange(k1 + 1, v.len() as int));
        assert forall|i: int| 0 <= i < k1 + 1 implies is_white(#[trigger] v[i]) by {
            if i > 0 {
                assert(v[i] == v.drop_first()[i - 1]);
            }
        }
        k1 + 1
    } else {
        assert(v.subrange(0, v.len() as int) =~= v);
        0
    }
}

/// `trim_end(v)` is `v` up to its last non-white character.
proof fn lemma_trim_end_index(v: Seq<char>) -> (k: int)
    ensures
        0 <= k <= v.len(),
        trim_end(v) == v.subrange(0, k),
        forall|i: int| k <= i < v.len() ==> is_white(#[trigger] v[i]),
        k > 0 ==> !is_white(v[k - 1]),
    decreases v.len(),
{
    if v.len() > 0 && is_white(v.last()) {
        let k1 = lemma_trim_end_index(v.drop_last());
        assert(v.drop_last().subrange(0, k1) =~= v.subrange(0, k1));
        assert forall|i: int| k1 <= i < v.len() implies is_white(#[trigger] v[i]) by {
            if i < v.len() - 1 {
                assert(v[i] == v.drop_last()[i]);
            }
        }
        k1
    } else {
        assert(v.subrange(0, v.len() as int) =~= v);
        v.len() as int
    }
}

/// Trimming the start twice trims it once.
proof fn lemma_trim_start_idem(v: Seq<char>)
    ensures
        trim_start(trim_start(v)) == trim_start(v),
{
    let k = lemma_trim_start_index(v);
    let u = trim_start(v);
    let j = lemma_trim_start_index(u);
    if j > 0 {
        assert(u[0] == v[k]);
    }
    assert(u.subrange(0, u.len() as int) =~= u);
}

/// Trimming the end twice trims it once.
proof fn lemma_trim_end_idem(v: Seq<char>)
    ensures
        trim_end(trim_end(v)) == trim_end(v),
{
    let k = lemma_trim_end_index(v);
    let u = trim_end(v);
    let j = lemma_trim_end_index(u);
    if j < k {
        assert(u[k - 1] == v[k - 1]);
    }
    assert(u.subrange(0, u.len() as int) =~= u);
}

/// Trimming the start and the end commute.
proof fn lemma_trim_commute(v: Seq<char>)
    ensures
        trim_start(trim_end(v)) == trim_end(trim_start(v)),
{
    let a = lemma_trim_start_index(v);
    let b = lemma_trim_end_index(v);
    let e = trim_end(v);
    let s = trim_start(v);
    let a2 = lemma_trim_start_index(e);
    let b2 = lemma_trim_end_index(s);
    if a == v.len() {
        if b > 0 {
            assert(is_white(v[b - 1]));
        }
        assert(trim_start(e) =~= Seq::<char>::empty());
        assert(trim_end(s) =~= Seq::<char>::empty());
    } else {
        assert(a < b) by {
            if b <= a {
                assert(is_white(v[a]));
            }
        }
        assert(a2 == a) by {
            if a2 < a {
                assert(e[a2] == v[a2]);
            } else if a2 > a {
                assert(e[a] == v[a]);
            }
        }
        assert(b2 == b - a) by {
            if b2 < b - a {
                assert(s[b - a - 1] == v[b - 1]);
                assert(is_white(s[b - a - 1]));
            } else if b2 > b - a {
                assert(s[b2 - 1] == v[b2 - 1 + a]);
            }
        }
        assert(trim_start(e) =~= v.subrange(a, b));
        assert(trim_end(s) =~= v.subrange(a, b));
    }
}

/// A start that is not all white space keeps what follows it.
proof fn lemma_trim_start_append(a: Seq<char>, b: Seq<char>)
    requires
        trim_start(a).len() > 0,
    ensures
        trim_start(a + b) == trim_start(a) + b,
    decreases a.len(),
{
    if a.len() > 0 && is_white(a[0]) {
        assert((a + b).drop_first() =~= a.drop_first() + b);
        lemma_trim_start_append(a.drop_first(), b);
    } else {
        assert(a.len() > 0);
        assert((a + b)[0] == a[0]);
    }
}

/// Trimming the end stops at a non-white character.
proof fn lemma_trim_end_after(p: Seq<char>, v: Seq<char>)
    requires
        p.len() > 0,
        !is_white(p.last()),
    ensures
        trim_end(p + v) == p + trim_end(v),
    decreases v.len(),
{
    if v.len() == 0 {
        assert(p + v =~= p);
        assert(p + trim_end(v) =~= p);
    } else {
        assert((p + v).last() == v.last());
        if is_white(v.last()) {
            assert((p + v).drop_last() =~= p + v.drop_last());
            lemma_trim_end_after(p, v.drop_last());
        }
    }
}

/// A character not in `a` is found in `a + b` where it is found in `b`.
proof fn lemma_find_char_skip(a: Seq<char>, b: Seq<char>, c: char)
    requires
        forall|i: int| 0 <= i < a.len() ==> a[i] != c,
    ensures
        find_char(a + b, c) == match find_char(b, c) {
            Some(i) => Some(i + a.len()),
            None => None,
        },
    decreases a.len(),
{
    if a.len() == 0 {
        assert(a + b =~= b);
    } else {
        assert((a + b).drop_first() =~= a.drop_first() + b);
        assert((a + b)[0] == a[0]);
        lemma_find_char_skip(a.drop_first(), b, c);
    }
}

/// One `key=value` setting, in the order the text gives them.
struct IniEntry {
    section: Vec<char>,
    key: Vec<char>,
    value: String,
}

spec fn entry_key(e: IniEntry) -> (Seq<char>, Seq<char>) {
    (e.section@, e.key@)
}

/// The values the settings give, a later setting of a key replacing an
/// earlier one.
spec fn entries_map(es: Seq<IniEntry>) -> Map<(Seq<char>, Seq<char>), Seq<char>>
    decreases es.len(),
{
    if es.len() == 0 {
        Map::empty()
    } else {
        entries_map(es.drop_last()).insert(entry_key(es.last()), es.last().value@)
    }
}

proof fn lemma_entries_last(es: Seq<IniEntry>, k: (Seq<char>, Seq<char>), j: int)
    requires
        0 <= j < es.len(),
        entry_key(es[j]) == k,
        forall|i: int| j < i < es.len() ==> entry_key(#[trigger] es[i]) != k,
    ensures
        entries_map(es).dom().contains(k),
        entries_map(es)[k] == es[j].value@,
    decreases es.len(),
{
    if j < es.len() - 1 {
        let p = es.drop_last();
        assert forall|i: int| j < i < p.len() implies entry_key(#[trigger] p[i]) != k by {
            assert(p[i] == es[i]);
        }
        lemma_entries_last(p, k, j);
    }
}

proof fn lemma_entries_absent(es: Seq<IniEntry>, k: (Seq<char>, Seq<char>))
    requires
        forall|i: int| 0 <= i < es.len() ==> entry_key(#[trigger] es[i]) != k,
    ensures
        !entries_map(es).dom().contains(k),
    decreases es.len(),
{
    if es.len() > 0 {
        let p = es.drop_last();
        assert forall|i: int| 0 <= i < p.len() implies entry_key(#[trigger] p[i]) != k by {
            assert(p[i] == es[i]);
        }
        lemma_entries_absent(p, k);
    }
}

/// The settings of an INI text.
pub struct Ini {
    entries: Vec<IniEntry>,
}

impl View for Ini {
    type V = Map<(Seq<char>, Seq<char>), Seq<char>>;

    closed spec fn view(&self) -> Self::V {
        entries_map(self.entries@)
    }
}

impl Ini {
    /// Reads an INI text.
    pub fn parse(text: &str) -> (r: Ini)
        ensures
            r@ == ini_values(text@),
    {
        let chars = chars_of(text);
        let mut ini = Ini { entries: Vec::new() };
        let mut current: Vec<char> = Vec::new();
        let mut line_start: usize = 0;
        let mut i: usize = 0;
        assert(chars@.subrange(0, 0) =~= Seq::<char>::empty());
        assert(ini@ =~= Map::empty());
        while i < chars.len()
            invariant
                line_start <= i <= chars.len(),
                ini_scan(chars@.subrange(0, i as int)) == (
                    IniModel { current: current@, values: ini@ },
                    chars@.subrange(line_start as int, i as int),
                ),
            decreases chars.len() - i,
        {
            assert(chars@.subrange(0, i + 1).drop_last() =~= chars@.subrange(0, i as int));
            if chars[i] == '\n' {
                ini.read_line(&mut current, &chars, line_start, i);
                line_start = i + 1;
                assert(chars@.subrange(line_start as int, i + 1) =~= Seq::<char>::empty());
            } else {
                assert(chars@.subrange(line_start as int, i + 1) =~= chars@.subrange(
                    line_start as int,
                    i as int,
                ).push(chars@[i as int]));
            }
            i += 1;
        }
        ini.read_line(&mut current, &chars, line_start, chars.len());
        assert(chars@.subrange(0, chars.len() as int) =~= text@);
        ini
    }

    /// Applies the line `v[lo..hi]`.
    fn read_line(&mut self, current: &mut Vec<char>, v: &Vec<char>, lo: usize, hi: usize)
        requires
            lo <= hi <= v.len(),
        ensures
            (IniModel { current: final(current)@, values: final(self)@ }) == ini_line(
                IniModel { current: old(current)@, values: old(self)@ },
                v@.subrange(lo as int, hi as int),
            ),
    {
        let (a, b) = trim_bounds(v, lo, hi);
        let ghost line = v@.subrange(a as int, b as int);
        if a == b || v[a] == ';' || v[a] == '#' {
            return;
        }
        if v[a] == '[' && v[b - 1] == ']' {
            assert(b - a >= 2);
            let (c, d) = trim_bounds(v, a + 1, b - 1);
            assert(v@.subrange(a + 1, b - 1) =~= line.subrange(1, line.len() - 1));
            *current = upper_chars(v, c, d);
            return;
        }
        let mut j = a;
        assert(v@.subrange(j as int, b as int) =~= line);
        while j < b && v[j] != '='
            invariant
                a <= j <= b <= v.len(),
                line == v@.subrange(a as int, b as int),
                find_char(line, '=') == match find_char(v@.subrange(j as int, b as int), '=') {
                    Some(x) => Some(x + (j - a)),
                    None => None,
                },
            decreases b - j,
        {
            assert(v@.subrange(j as int, b as int).drop_first() =~= v@.subrange(
                j + 1,
                b as int,
            ));
            j += 1;
        }
        if j == b {
            return;
        }
        assert(find_char(line, '=') == Some(j - a));
        let (ka, kb) = trim_bounds(v, a, j);
        assert(v@.subrange(a as int, j as int) =~= line.subrange(0, j - a));
        let key = upper_chars(v, ka, kb);
        let (c, d) = trim_bounds(v, j + 1, b);
        assert(v@.subrange(j + 1, b as int) =~= line.subrange(j - a + 1, line.len() as int));
        let raw = string_from_chars(v, c, d);
        let value = strip_quotes(raw.as_str()).to_owned();
        let section = current.clone();
        let ghost before = self.entries@;
        self.entries.push(IniEntry { section, key, value });
        assert(self.entries@.drop_last() =~= before);
    }

    /// The value of `key` in `section` (both without regard to ASCII case),
    /// or `default`.
    pub fn get_string(&self, section: &str, key: &str, default: &str) -> (r: String)
        ensures
            r@ == ini_string(self@, section@, key@, default@),
    {
        match self.find(section, key) {
            Some(j) => self.entries[j].value.clone(),
            None => default.to_owned(),
        }
    }

    /// The integer the value of `key` in `section` starts with, or
    /// `default`.
    pub fn get_int(&self, section: &str, key: &str, default: i32) -> (r: i32)
        ensures
            r == ini_int(self@, section@, key@, default),
    {
        match self.find(section, key) {
            Some(j) => match parse_leading_int(self.entries[j].value.as_str()) {
                Some(n) => n,
                None => default,
            },
            None => default,
        }
    }

    /// The index of the setting that gives the value of `key` in `section`.
    fn find(&self, section: &str, key: &str) -> (r: Option<usize>)
        ensures
            match r {
                Some(j) => j < self.entries.len() && ini_lookup(self@, section@, key@) == Some(
                    self.entries@[j as int].value@,
                ),
                None => ini_lookup(self@, section@, key@) is None,
            },
    {
        let sv = chars_of(section);
        let kv = chars_of(key);
        let s = upper_chars(&sv, 0, sv.len());
        let k = upper_chars(&kv, 0, kv.len());
        assert(sv@.subrange(0, sv.len() as int) =~= section@);
        assert(kv@.subrange(0, kv.len() as int) =~= key@);
        let ghost want = (s@, k@);
        let mut j = self.entries.len();
        while j > 0
            invariant
                j <= self.entries.len(),
                want == (upper(section@), upper(key@)),
                want == (s@, k@),
                forall|i: int|
                    j <= i < self.entries.len() ==> entry_key(#[trigger] self.entries@[i])
                        != want,
            decreases j,
        {
            j -= 1;
            let same_section = chars_eq(&self.entries[j].section, &s);
            let same_key = chars_eq(&self.entries[j].key, &k);
            if same_section && same_key {
                proof {
                    lemma_entries_last(self.entries@, want, j as int);
                }
                return Some(j);
            }
        }
        proof {
            lemma_entries_absent(self.entries@, want);
        }
        None
    }
}

/// `s` without one pair of enclosing double quotes, if it has them.
pub fn strip_quotes(s: &str) -> (r: &str)
    ensures
        r@ == unquote(s@),
{
    let n = s.unicode_len();
    if n >= 2 && s.get_char(0) == '"' && s.get_char(n - 1) == '"' {
        s.substring_char(1, n - 1)
    } else {
        s
    }
}

/// Reads the integer at the start of `s` (see [`leading_int`]).
pub fn parse_leading_int(s: &str) -> (r: Option<i32>)
    ensures
        r == leading_int(s@),
{
    let v = chars_of(s);
    let (a, b) = trim_bounds(&v, 0, v.len());
    assert(v@.subrange(0, v.len() as int) =~= s@);
    let ghost t = v@.subrange(a as int, b as int);
    let signed = a < b && (v[a] == '+' || v[a] == '-');
    let start = if signed { a + 1 } else { a };
    let mut j = start;
    let mut acc: u64 = 0;
    assert(t.subrange(start - a, start - a) =~= Seq::<char>::empty());
    assert(t.subrange(start - a, t.len() as int) =~= v@.subrange(start as int, b as int));
    while j < b && '0' <= v[j] && v[j] <= '9'
        invariant
            a <= start <= j <= b <= v.len(),
            t == v@.subrange(a as int, b as int),
            start - a <= 1,
            digit_run(t.subrange(start - a, t.len() as int)) == (j - start) + digit_run(
                v@.subrange(j as int, b as int),
            ),
            acc == if digits_value(t.subrange(start - a, j - a)) > 2147483649 {
                2147483649
            } else {
                digits_value(t.subrange(start - a, j - a))
            },
        decreases b - j,
    {
        assert(v@.subrange(j as int, b as int).drop_first() =~= v@.subrange(j + 1, b as int));
        assert(t.subrange(start - a, j + 1 - a).drop_last() =~= t.subrange(start - a, j - a));
        let d = (v[j] as u32 - '0' as u32) as u64;
        if acc < 2147483649 {
            acc = acc * 10 + d;
            if acc > 2147483649 {
                acc = 2147483649;
            }
        }
        j += 1;
    }
    assert(digit_run(v@.subrange(j as int, b as int)) == 0);
    if j == start {
        return None;
    }
    let negative = signed && v[a] == '-';
    if negative {
        if acc > 2147483648 {
            None
        } else {
            Some((0 - (acc as i64)) as i32)
        }
    } else if acc > 2147483647 {
        None
    } else {
        Some(acc as i32)
    }
}

impl Config {
    /// The settings an INI text gives, with their defaults: `localhost`,
    /// port `8888`, and 0 for the three integers.
    pub fn from_ini_text(text: &str) -> (r: Config)
        ensures
            r.server_host@ == ini_string(ini_values(text@), "GLOBAL"@, "SERVER_HOST"@, "localhost"@),
            r.server_port@ == ini_string(ini_values(text@), "GLOBAL"@, "SERVER_PORT"@, "8888"@),
            r.decode_b25 == ini_int(ini_values(text@), "GLOBAL"@, "DECODE_B25"@, 0),
            r.priority == ini_int(ini_values(text@), "GLOBAL"@, "PRIORITY"@, 0),
            r.service_split == ini_int(ini_values(text@), "GLOBAL"@, "SERVICE_SPLIT"@, 0),
    {
        let ini = Ini::parse(text);
        Config {
            server_host: ini.get_string("GLOBAL", "SERVER_HOST", "localhost"),
            server_port: ini.get_string("GLOBAL", "SERVER_PORT", "8888"),
            decode_b25: ini.get_int("GLOBAL", "DECODE_B25", 0),
            priority: ini.get_int("GLOBAL", "PRIORITY", 0),
            service_split: ini.get_int("GLOBAL", "SERVICE_SPLIT", 0),
        }
    }

    /// The settings of the INI file's bytes, read as UTF-8 where invalid
    /// sequences become U+FFFD.
    pub fn from_ini_bytes(bytes: &[u8]) -> (r: Config)
        ensures
            r.server_host@ == ini_string(
                ini_values(utf8_lossy(bytes@)),
                "GLOBAL"@,
                "SERVER_HOST"@,
                "localhost"@,
            ),
            r.server_port@ == ini_string(
                ini_values(utf8_lossy(bytes@)),
                "GLOBAL"@,
                "SERVER_PORT"@,
                "8888"@,
            ),
            r.decode_b25 == ini_int(ini_values(utf8_lossy(bytes@)), "GLOBAL"@, "DECODE_B25"@, 0),
            r.priority == ini_int(ini_values(utf8_lossy(bytes@)), "GLOBAL"@, "PRIORITY"@, 0),
            r.service_split == ini_int(
                ini_values(utf8_lossy(bytes@)),
                "GLOBAL"@,
                "SERVICE_SPLIT"@,
                0,
            ),
    {
        let text = decode_utf8_lossy(bytes);
        Config::from_ini_text(text.as_str())
    }

    /// The server port, or 8888 when `server_port` is not a `u16`.
    pub fn port_num(&self) -> (r: u16)
        ensures
            r == match parse_u16(self.server_port@) {
                Some(p) => p,
                None => 8888u16,
            },
    {
        match parse_port(self.server_port.as_str()) {
            Some(p) => p,
            None => 8888,
        }
    }
}

/// `s.parse::<u16>().ok()` (see [`parse_u16`]).
pub fn parse_port(s: &str) -> (r: Option<u16>)
    ensures
        r == parse_u16(s@),
{
    let v = chars_of(s);
    let start: usize = if v.len() > 0 && v[0] == '+' { 1 } else { 0 };
    let ghost body = v@.subrange(start as int, v.len() as int);
    assert(body =~= (if s@.len() > 0 && s@[0] == '+' { s@.drop_first() } else { s@ }));
    if start == v.len() {
        return None;
    }
    let mut j = start;
    let mut acc: u32 = 0;
    assert(body.subrange(0, 0) =~= Seq::<char>::empty());
    while j < v.len()
        invariant
            start <= j <= v.len(),
            body == v@.subrange(start as int, v.len() as int),
            body == (if s@.len() > 0 && s@[0] == '+' { s@.drop_first() } else { s@ }),
            all_digits(body.subrange(0, j - start)),
            acc == if digits_value(body.subrange(0, j - start)) > 65536 {
                65536
            } else {
                digits_value(body.subrange(0, j - start))
            },
        decreases v.len() - j,
    {
        if !('0' <= v[j] && v[j] <= '9') {
            assert(body[j - start] == v@[j as int]);
            assert(!is_digit(body[j - start]));
            return None;
        }
        assert(body.subrange(0, j + 1 - start).drop_last() =~= body.subrange(0, j - start));
        let d = v[j] as u32 - '0' as u32;
        if acc < 65536 {
            acc = acc * 10 + d;
            if acc > 65536 {
                acc = 65536;
            }
        }
        j += 1;
    }
    assert(body.subrange(0, body.len() as int) =~= body);
    if acc > 65535 {
        None
    } else {
        Some(acc as u16)
    }
}

} // verus!
