//! Characters and lines: what `\s` matches, and the lines of a text with the
//! white space at their ends cut off.
use vstd::prelude::*;
use vstd::string::StringExecFns;

verus! {

broadcast use vstd::string::group_string_axioms;

/// The characters with Unicode's `White_Space` property: those `char::is_whitespace`,
/// `str::trim` and the regex class `\s` go by.
pub open spec fn is_white_space(c: char) -> bool {
    let u = c as u32;
    ||| 0x9 <= u <= 0xD
    ||| u == 0x20
    ||| u == 0x85
    ||| u == 0xA0
    ||| u == 0x1680
    ||| 0x2000 <= u <= 0x200A
    ||| u == 0x2028
    ||| u == 0x2029
    ||| u == 0x202F
    ||| u == 0x205F
    ||| u == 0x3000
}

/// The white-space characters are the 25 that Unicode gives the
/// `White_Space` property, every one that the regex `\s` matches: the
/// controls U+0009 to U+000D, the space, U+0085, the no-break space U+00A0,
/// U+1680, U+2000 to U+200A, the line and paragraph separators, U+202F,
/// U+205F and the ideographic space U+3000.
pub proof fn lemma_white_space_is_unicode(c: char)
    ensures
        is_white_space(c) <==> (c == '\u{9}' || c == '\u{A}' || c == '\u{B}' || c == '\u{C}' || c == '\u{D}'
            || c == ' ' || c == '\u{85}' || c == '\u{A0}' || c == '\u{1680}' || c == '\u{2000}' || c
            == '\u{2001}' || c == '\u{2002}' || c == '\u{2003}' || c == '\u{2004}' || c == '\u{2005}' || c
            == '\u{2006}' || c == '\u{2007}' || c == '\u{2008}' || c == '\u{2009}' || c == '\u{200A}' || c
            == '\u{2028}' || c == '\u{2029}' || c == '\u{202F}' || c == '\u{205F}' || c == '\u{3000}'),
{
}

/// Whether `c` has the `White_Space` property.
pub fn white_space(c: char) -> (r: bool)
    ensures
        r == is_white_space(c),
{
    let u = c as u32;
    (0x9 <= u && u <= 0xD) || u == 0x20 || u == 0x85 || u == 0xA0 || u == 0x1680 || (0x2000 <= u
        && u <= 0x200A) || u == 0x2028 || u == 0x2029 || u == 0x202F || u == 0x205F || u == 0x3000
}

/// `s` holds a white-space character.
pub open spec fn has_white_space(s: Seq<char>) -> bool {
    exists|i: int| 0 <= i < s.len() && is_white_space(#[trigger] s[i])
}

/// Whether `s` holds a white-space character: whether `\s+` matches in it.
pub fn contains_white_space(s: &str) -> (r: bool)
    ensures
        r == has_white_space(s@),
{
    for c in it: s.chars()
        invariant
            it.seq() == s@,
            forall|k: int| 0 <= k < it.index() ==> !is_white_space(#[trigger] s@[k]),
    {
        if white_space(c) {
            return true;
        }
    }
    false
}

/// `String::push`: appends `c` to `s`.
#[verifier::external_body]
pub(crate) fn push_char(s: &mut String, c: char)
    ensures
        final(s)@ == old(s)@.push(c),
{
    s.push(c);
}

/// The pieces of `s` between its `'\n'` characters, as `str::split('\n')` gives them.
pub open spec fn split_lines(s: Seq<char>) -> Seq<Seq<char>>
    decreases s.len(),
{
    if s.len() == 0 {
        seq![Seq::empty()]
    } else {
        let init = split_lines(s.drop_last());
        if s.last() == '\n' {
            init.push(Seq::empty())
        } else {
            init.update(init.len() - 1, init.last().push(s.last()))
        }
    }
}

pub proof fn lemma_split_lines_len(s: Seq<char>)
    ensures
        split_lines(s).len() >= 1,
    decreases s.len(),
{
    if s.len() > 0 {
        lemma_split_lines_len(s.drop_last());
    }
}

/// `s` without its leading white space.
pub open spec fn trim_start(s: Seq<char>) -> Seq<char>
    decreases s.len(),
{
    if s.len() > 0 && is_white_space(s[0]) {
        trim_start(s.drop_first())
    } else {
        s
    }
}

/// `s` without its trailing white space.
pub open spec fn trim_end(s: Seq<char>) -> Seq<char>
    decreases s.len(),
{
    if s.len() > 0 && is_white_space(s.last()) {
        trim_end(s.drop_last())
    } else {
        s
    }
}

/// `s` without white space at either end, as `str::trim` gives it.
pub open spec fn trim(s: Seq<char>) -> Seq<char> {
    trim_end(trim_start(s))
}

proof fn lemma_trim_start_skip(s: Seq<char>, a: int)
    requires
        0 <= a <= s.len(),
        forall|k: int| 0 <= k < a ==> is_white_space(#[trigger] s[k]),
        a == s.len() || !is_white_space(s[a]),
    ensures
        trim_start(s) == s.skip(a),
    decreases a,
{
    if a == 0 {
        assert(s.skip(0) =~= s);
    } else {
        let t = s.drop_first();
        assert forall|k: int| 0 <= k < a - 1 implies is_white_space(#[trigger] t[k]) by {
            assert(t[k] == s[k + 1]);
        }
        if a - 1 < t.len() {
            assert(t[a - 1] == s[a]);
        }
        lemma_trim_start_skip(t, a - 1);
        assert(t.skip(a - 1) =~= s.skip(a));
    }
}

proof fn lemma_trim_end_take(s: Seq<char>, b: int)
    requires
        0 <= b <= s.len(),
        forall|k: int| b <= k < s.len() ==> is_white_space(#[trigger] s[k]),
        b == 0 || !is_white_space(s[b - 1]),
    ensures
        trim_end(s) == s.take(b),
    decreases s.len() - b,
{
    if b == s.len() {
        assert(s.take(b) =~= s);
        if s.len() > 0 {
            assert(s.last() == s[b - 1]);
        }
    } else {
        let t = s.drop_last();
        assert(is_white_space(s[s.len() - 1]));
        assert forall|k: int| b <= k < t.len() implies is_white_space(#[trigger] t[k]) by {
            assert(t[k] == s[k]);
        }
        if b > 0 {
            assert(t[b - 1] == s[b - 1]);
        }
        lemma_trim_end_take(t, b);
        assert(t.take(b) =~= s.take(b));
    }
}

/// The characters `cs` without white space at either end, as a `String`.
pub fn trimmed(cs: &Vec<char>) -> (r: String)
    ensures
        r@ == trim(cs@),
{
    let n = cs.len();
    let mut a: usize = 0;
    while a < n && white_space(cs[a])
        invariant
            a <= n == cs@.len(),
            forall|k: int| 0 <= k < a ==> is_white_space(#[trigger] cs@[k]),
        decreases n - a,
    {
        a = a + 1;
    }
    proof {
        lemma_trim_start_skip(cs@, a as int);
    }
    let ghost t = cs@.skip(a as int);
    let mut b: usize = n;
    while b > a && white_space(cs[b - 1])
        invariant
            a <= b <= n == cs@.len(),
            t == cs@.skip(a as int),
            forall|k: int| b <= k < n ==> is_white_space(#[trigger] cs@[k]),
        decreases b,
    {
        b = b - 1;
    }
    proof {
        assert forall|k: int| b - a <= k < t.len() implies is_white_space(#[trigger] t[k]) by {
            assert(t[k] == cs@[k + a]);
        }
        if b > a {
            assert(t[b - a - 1] == cs@[b - 1]);
        }
        lemma_trim_end_take(t, b - a);
    }
    let mut r = String::new();
    let mut k: usize = a;
    while k < b
        invariant
            a <= k <= b <= n == cs@.len(),
            r@ == cs@.subrange(a as int, k as int),
        decreases b - k,
    {
        push_char(&mut r, cs[k]);
        proof {
            assert(cs@.subrange(a as int, k + 1) =~= cs@.subrange(a as int, k as int).push(cs@[k as int]));
        }
        k = k + 1;
    }
    proof {
        assert(t.take(b - a) =~= cs@.subrange(a as int, b as int));
    }
    r
}

/// The texts of `v`.
pub open spec fn strings_view(v: Seq<String>) -> Seq<Seq<char>> {
    v.map_values(|s: String| s@)
}

/// The texts of `v`, one after the other.
pub open spec fn concat_all(v: Seq<Seq<char>>) -> Seq<char>
    decreases v.len(),
{
    if v.len() == 0 {
        Seq::empty()
    } else {
        concat_all(v.drop_last()) + v.last()
    }
}

/// The strings of `parts`, one after the other.
pub fn concat(parts: &Vec<String>) -> (r: String)
    ensures
        r@ == concat_all(strings_view(parts@)),
{
    let mut r = String::new();
    let n = parts.len();
    let mut i: usize = 0;
    while i < n
        invariant
            i <= n == parts@.len(),
            r@ == concat_all(strings_view(parts@.take(i as int))),
        decreases n - i,
    {
        r.append(parts[i].as_str());
        proof {
            let t = strings_view(parts@.take(i + 1));
            assert(t.drop_last() =~= strings_view(parts@.take(i as int)));
            assert(t.last() == parts@[i as int]@);
        }
        i = i + 1;
    }
    proof {
        assert(parts@.take(n as int) =~= parts@);
    }
    r
}

} // verus!
