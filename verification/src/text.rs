//! Text helpers: prefixes and suffixes, trimming, route paths, case
//! conversion and type names.
use vstd::prelude::*;

verus! {

/// Unicode `Uppercase` property of a character (`char::is_uppercase`).
pub uninterp spec fn is_uppercase_char(c: char) -> bool;

/// Unicode lowercase mapping of a character (`char::to_lowercase`).
pub uninterp spec fn lowercase_of_char(c: char) -> Seq<char>;

/// Unicode uppercase mapping of a string (`str::to_uppercase`).
pub uninterp spec fn uppercase_of(s: Seq<char>) -> Seq<char>;

/// `char::is_uppercase`: whether the character has the Unicode `Uppercase`
/// property; the result is named, not stated.
#[verifier::external_body]
fn char_is_uppercase(c: char) -> (r: bool)
    ensures
        r == is_uppercase_char(c),
{
    c.is_uppercase()
}

/// `char::to_lowercase`, collected into a string: the Unicode lowercase
/// mapping of the character (one or more characters); named, not stated.
#[verifier::external_body]
fn char_to_lowercase(c: char) -> (r: String)
    ensures
        r@ == lowercase_of_char(c),
{
    c.to_lowercase().collect()
}

/// `str::to_uppercase`: the Unicode uppercase mapping of the string;
/// named, not stated.
#[verifier::external_body]
pub(crate) fn str_to_uppercase(s: &str) -> (r: String)
    ensures
        r@ == uppercase_of(s@),
{
    s.to_uppercase()
}

/// `String::push`: appends one character.
#[verifier::external_body]
fn push_char(s: &mut String, c: char)
    ensures
        final(s)@ == old(s)@.push(c),
{
    s.push(c)
}

/// `s` begins with `prefix`.
pub open spec fn has_prefix(s: Seq<char>, prefix: Seq<char>) -> bool {
    prefix.len() <= s.len() && s.subrange(0, prefix.len() as int) == prefix
}

/// `s` ends with `suffix`.
pub open spec fn has_suffix(s: Seq<char>, suffix: Seq<char>) -> bool {
    suffix.len() <= s.len() && s.subrange(s.len() - suffix.len(), s.len() as int) == suffix
}

/// Whether `s` begins with `prefix`.
pub fn starts_with(s: &str, prefix: &str) -> (r: bool)
    ensures
        r == has_prefix(s@, prefix@),
{
    let n = s.unicode_len();
    let m = prefix.unicode_len();
    if m > n {
        return false;
    }
    let mut i: usize = 0;
    while i < m
        invariant
            i <= m <= n,
            n == s@.len(),
            m == prefix@.len(),
            forall|j: int| 0 <= j < i ==> s@[j] == prefix@[j],
        decreases m - i,
    {
        if s.get_char(i) != prefix.get_char(i) {
            assert(s@.subrange(0, m as int)[i as int] != prefix@[i as int]);
            return false;
        }
        i = i + 1;
    }
    assert(s@.subrange(0, m as int) =~= prefix@);
    true
}

/// Whether `s` ends with `suffix`.
pub fn ends_with(s: &str, suffix: &str) -> (r: bool)
    ensures
        r == has_suffix(s@, suffix@),
{
    let n = s.unicode_len();
    let m = suffix.unicode_len();
    if m > n {
        return false;
    }
    let off = n - m;
    let mut i: usize = 0;
    while i < m
        invariant
            i <= m <= n,
            off == n - m,
            n == s@.len(),
            m == suffix@.len(),
            forall|j: int| 0 <= j < i ==> s@[off + j] == suffix@[j],
        decreases m - i,
    {
        if s.get_char(off + i) != suffix.get_char(i) {
            assert(s@.subrange(off as int, n as int)[i as int] != suffix@[i as int]);
            return false;
        }
        i = i + 1;
    }
    assert(s@.subrange(off as int, n as int) =~= suffix@);
    true
}

/// `s` without the trailing run of `c`.
pub open spec fn trim_end_char(s: Seq<char>, c: char) -> Seq<char>
    decreases s.len(),
{
    if s.len() > 0 && s.last() == c {
        trim_end_char(s.drop_last(), c)
    } else {
        s
    }
}

/// `s` without the leading run of `c`.
pub open spec fn trim_start_char(s: Seq<char>, c: char) -> Seq<char>
    decreases s.len(),
{
    if s.len() > 0 && s[0] == c {
        trim_start_char(s.drop_first(), c)
    } else {
        s
    }
}

/// `s` without leading and trailing runs of `c`.
pub open spec fn trim_char(s: Seq<char>, c: char) -> Seq<char> {
    trim_end_char(trim_start_char(s, c), c)
}

/// Trimming the end stops at the last character other than `c`.
proof fn lemma_trim_end(s: Seq<char>, c: char, b: int)
    requires
        0 <= b <= s.len(),
        forall|j: int| b <= j < s.len() ==> s[j] == c,
        b == 0 || s[b - 1] != c,
    ensures
        trim_end_char(s, c) == s.subrange(0, b),
    decreases s.len(),
{
    if s.len() > b {
        assert(s.last() == c);
        lemma_trim_end(s.drop_last(), c, b);
        assert(s.drop_last().subrange(0, b) == s.subrange(0, b));
    } else {
        assert(s.subrange(0, b) == s);
    }
}

/// Trimming the start stops at the first character other than `c`.
proof fn lemma_trim_start(s: Seq<char>, c: char, a: int)
    requires
        0 <= a <= s.len(),
        forall|j: int| 0 <= j < a ==> s[j] == c,
        a == s.len() || s[a] != c,
    ensures
        trim_start_char(s, c) == s.subrange(a, s.len() as int),
    decreases a,
{
    if a > 0 {
        assert(s[0] == c);
        lemma_trim_start(s.drop_first(), c, a - 1);
        assert(s.drop_first().subrange(a - 1, s.len() - 1) == s.subrange(a, s.len() as int));
    } else {
        assert(s.subrange(0, s.len() as int) == s);
    }
}

/// Position after the last character of `s` other than `c` (0 if none).
fn trimmed_end(s: &str, n: usize, c: char) -> (b: usize)
    requires
        n == s@.len(),
    ensures
        b <= n,
        forall|j: int| b <= j < n ==> s@[j] == c,
        b == 0 || s@[b - 1] != c,
{
    let mut b = n;
    while b > 0
        invariant
            b <= n == s@.len(),
            forall|j: int| b <= j < n ==> s@[j] == c,
        decreases b,
    {
        if s.get_char(b - 1) != c {
            return b;
        }
        b = b - 1;
    }
    b
}

/// `s` without the trailing run of `c` (`str::trim_end_matches` with a
/// character).
pub fn trim_end_matches(s: &str, c: char) -> (r: String)
    ensures
        r@ == trim_end_char(s@, c),
{
    let n = s.unicode_len();
    let b = trimmed_end(s, n, c);
    proof {
        lemma_trim_end(s@, c, b as int);
    }
    String::from_str(s.substring_char(0, b))
}

/// `s` without leading and trailing runs of `c` (`str::trim_matches` with a
/// character).
pub fn trim_matches(s: &str, c: char) -> (r: String)
    ensures
        r@ == trim_char(s@, c),
{
    let n = s.unicode_len();
    let mut a: usize = 0;
    while a < n
        invariant
            a <= n == s@.len(),
            forall|j: int| 0 <= j < a ==> s@[j] == c,
        ensures
            a <= n,
            forall|j: int| 0 <= j < a ==> s@[j] == c,
            a == n || s@[a as int] != c,
        decreases n - a,
    {
        if s.get_char(a) != c {
            break;
        }
        a = a + 1;
    }
    proof {
        lemma_trim_start(s@, c, a as int);
    }
    let rest = s.substring_char(a, n);
    let b = trimmed_end(rest, n - a, c);
    proof {
        lemma_trim_end(rest@, c, b as int);
    }
    String::from_str(rest.substring_char(0, b))
}

/// The route path joining a controller's base path and a method's path:
/// each without surrounding slashes, joined under a leading slash.
pub open spec fn combined_path(base: Seq<char>, method: Seq<char>) -> Seq<char> {
    let b = trim_char(base, '/');
    let m = trim_char(method, '/');
    if b.len() == 0 && m.len() == 0 {
        seq!['/']
    } else if b.len() == 0 {
        seq!['/'] + m
    } else if m.len() == 0 {
        seq!['/'] + b
    } else {
        seq!['/'] + b + seq!['/'] + m
    }
}

/// Joins a controller's base path and a method's path into a route path.
pub fn combine_paths(base: &str, method: &str) -> (r: String)
    ensures
        r@ == combined_path(base@, method@),
{
    let b = trim_matches(base, '/');
    let m = trim_matches(method, '/');
    let mut r = String::new();
    push_char(&mut r, '/');
    if b.unicode_len() == 0 && m.unicode_len() == 0 {
        assert(r@ =~= seq!['/']);
    } else if b.unicode_len() == 0 {
        r.append(m.as_str());
    } else if m.unicode_len() == 0 {
        r.append(b.as_str());
    } else {
        r.append(b.as_str());
        push_char(&mut r, '/');
        r.append(m.as_str());
    }
    r
}

/// Whether a `{` is open after reading `s` (left to right).
pub open spec fn in_param_after(s: Seq<char>) -> bool
    decreases s.len(),
{
    if s.len() == 0 {
        false
    } else if in_param_after(s.drop_last()) {
        s.last() != '}'
    } else {
        s.last() == '{'
    }
}

/// `s` with each `{name}` written `:name` (a `{` left open runs to the end).
pub open spec fn converted_params(s: Seq<char>) -> Seq<char>
    decreases s.len(),
{
    if s.len() == 0 {
        Seq::empty()
    } else {
        let prev = converted_params(s.drop_last());
        let c = s.last();
        if in_param_after(s.drop_last()) {
            if c == '}' {
                prev
            } else {
                prev.push(c)
            }
        } else if c == '{' {
            prev.push(':')
        } else {
            prev.push(c)
        }
    }
}

/// Converts route parameters from `{id}` to `:id`.
pub fn convert_path_params(path: &str) -> (r: String)
    ensures
        r@ == converted_params(path@),
{
    let n = path.unicode_len();
    let mut result = String::new();
    let mut inside = false;
    let mut i: usize = 0;
    while i < n
        invariant
            i <= n == path@.len(),
            inside == in_param_after(path@.subrange(0, i as int)),
            result@ == converted_params(path@.subrange(0, i as int)),
        decreases n - i,
    {
        let ch = path.get_char(i);
        let ghost pre = path@.subrange(0, i as int);
        assert(path@.subrange(0, i + 1).drop_last() == pre);
        assert(path@.subrange(0, i + 1).last() == ch);
        if inside {
            if ch == '}' {
                inside = false;
            } else {
                push_char(&mut result, ch);
            }
        } else if ch == '{' {
            push_char(&mut result, ':');
            inside = true;
        } else {
            push_char(&mut result, ch);
        }
        i = i + 1;
    }
    assert(path@.subrange(0, n as int) == path@);
    result
}

/// ASCII lowercase of a character (`char::to_ascii_lowercase`).
pub open spec fn ascii_lower(c: char) -> char {
    if 'A' <= c <= 'Z' {
        ((c as u32) + 32) as char
    } else {
        c
    }
}

/// ASCII lowercase of a character.
fn to_ascii_lowercase(c: char) -> (r: char)
    ensures
        r == ascii_lower(c),
{
    if 'A' <= c && c <= 'Z' {
        ((c as u8) + 32) as char
    } else {
        c
    }
}

/// `s` in snake case: an underscore before every uppercase character but
/// the first, and every character lowered to ASCII lowercase.
pub open spec fn snake_case_ascii(s: Seq<char>) -> Seq<char>
    decreases s.len(),
{
    if s.len() == 0 {
        Seq::empty()
    } else {
        let prev = snake_case_ascii(s.drop_last());
        let c = s.last();
        let sep = if s.len() > 1 && is_uppercase_char(c) {
            prev.push('_')
        } else {
            prev
        };
        sep.push(ascii_lower(c))
    }
}

/// Converts a type name to the snake-case name of an accessor method
/// (`MyService` becomes `my_service`).
pub fn to_snake_case_ascii(s: &str) -> (r: String)
    ensures
        r@ == snake_case_ascii(s@),
{
    let n = s.unicode_len();
    let mut result = String::new();
    let mut i: usize = 0;
    while i < n
        invariant
            i <= n == s@.len(),
            result@ == snake_case_ascii(s@.subrange(0, i as int)),
        decreases n - i,
    {
        let c = s.get_char(i);
        assert(s@.subrange(0, i + 1).drop_last() == s@.subrange(0, i as int));
        assert(s@.subrange(0, i + 1).last() == c);
        if i > 0 && char_is_uppercase(c) {
            push_char(&mut result, '_');
        }
        push_char(&mut result, to_ascii_lowercase(c));
        i = i + 1;
    }
    assert(s@.subrange(0, n as int) == s@);
    result
}

/// `s` in snake case: an underscore before every uppercase character but
/// the first, and every uppercase character replaced by its Unicode
/// lowercase mapping.
pub open spec fn snake_case(s: Seq<char>) -> Seq<char>
    decreases s.len(),
{
    if s.len() == 0 {
        Seq::empty()
    } else {
        let prev = snake_case(s.drop_last());
        let c = s.last();
        if is_uppercase_char(c) {
            (if s.len() > 1 {
                prev.push('_')
            } else {
                prev
            }) + lowercase_of_char(c)
        } else {
            prev.push(c)
        }
    }
}

/// Converts a PascalCase or camelCase name to snake case (`TestController`
/// becomes `test_controller`).
pub fn to_snake_case(s: &str) -> (r: String)
    ensures
        r@ == snake_case(s@),
{
    let n = s.unicode_len();
    let mut result = String::new();
    let mut prev_lowercase = false;
    let mut i: usize = 0;
    while i < n
        invariant
            i <= n == s@.len(),
            prev_lowercase == (i > 0),
            result@ == snake_case(s@.subrange(0, i as int)),
        decreases n - i,
    {
        let c = s.get_char(i);
        assert(s@.subrange(0, i + 1).drop_last() == s@.subrange(0, i as int));
        assert(s@.subrange(0, i + 1).last() == c);
        if char_is_uppercase(c) {
            if i > 0 && prev_lowercase {
                push_char(&mut result, '_');
            }
            let lower = char_to_lowercase(c);
            result.append(lower.as_str());
            prev_lowercase = true;
        } else {
            push_char(&mut result, c);
            prev_lowercase = true;
        }
        i = i + 1;
    }
    assert(s@.subrange(0, n as int) == s@);
    result
}

/// A `::` separator starts at position `i` of `s`.
pub open spec fn separator_at(s: Seq<char>, i: int) -> bool {
    0 <= i && i + 1 < s.len() && s[i] == ':' && s[i + 1] == ':'
}

/// Position of the first `::` separator in `s`, if any.
#[verifier::opaque]
pub open spec fn first_separator(s: Seq<char>) -> Option<int> {
    if exists|i: int| #[trigger] separator_at(s, i) {
        Some(choose|i: int| #[trigger] separator_at(s, i) && forall|j: int| 0 <= j < i ==> !separator_at(s, j))
    } else {
        None
    }
}

/// The last piece of `s` split at `::` separators, taken left to right
/// without overlap (`s.split("::").last()`).
pub open spec fn last_path_segment(s: Seq<char>) -> Seq<char>
    decreases s.len(),
{
    match first_separator(s) {
        Some(i) => if 0 <= i && i + 2 <= s.len() {
            last_path_segment(s.subrange(i + 2, s.len() as int))
        } else {
            s
        },
        None => s,
    }
}

/// The first separator of `s` is at `i` when `i` holds one and none comes
/// before it.
proof fn lemma_first_separator(s: Seq<char>, i: int)
    requires
        separator_at(s, i),
        forall|j: int| 0 <= j < i ==> !separator_at(s, j),
    ensures
        first_separator(s) == Some(i),
{
    reveal(first_separator);
    let c = choose|k: int| #[trigger] separator_at(s, k) && forall|j: int| 0 <= j < k ==> !separator_at(s, j);
    assert(separator_at(s, i) && forall|j: int| 0 <= j < i ==> !separator_at(s, j));
    if c < i {
        assert(!separator_at(s, c));
    } else if c > i {
        assert(!separator_at(s, i));
    }
}

/// Reading past the first separator after `start` keeps the last segment.
proof fn lemma_segment_step(s: Seq<char>, start: int, i: int)
    requires
        0 <= start <= i,
        separator_at(s, i),
        forall|j: int| start <= j < i ==> !#[trigger] separator_at(s, j),
    ensures
        last_path_segment(s.subrange(start, s.len() as int)) == last_path_segment(s.subrange(i + 2, s.len() as int)),
{
    let rest = s.subrange(start, s.len() as int);
    assert(separator_at(rest, i - start));
    assert forall|j: int| 0 <= j < i - start implies !separator_at(rest, j) by {
        assert(!separator_at(s, start + j));
    }
    lemma_first_separator(rest, i - start);
    assert(rest.subrange(i - start + 2, rest.len() as int) == s.subrange(i + 2, s.len() as int));
}

/// Without separators from `start` on, the last segment is all of it.
proof fn lemma_segment_end(s: Seq<char>, start: int)
    requires
        0 <= start <= s.len(),
        forall|j: int| start <= j ==> !#[trigger] separator_at(s, j),
    ensures
        last_path_segment(s.subrange(start, s.len() as int)) == s.subrange(start, s.len() as int),
{
    let rest = s.subrange(start, s.len() as int);
    reveal(first_separator);
    if exists|k: int| #[trigger] separator_at(rest, k) {
        let k = choose|k: int| #[trigger] separator_at(rest, k);
        assert(separator_at(s, start + k));
    }
}

/// The short name of a type: its full name's last `::`-separated segment
/// (`alloc::string::String` gives `String`).
pub fn get_short_type_name(full_name: &str) -> (r: String)
    ensures
        r@ == last_path_segment(full_name@),
{
    let ghost s = full_name@;
    let n = full_name.unicode_len();
    let mut start: usize = 0;
    let mut i: usize = 0;
    assert(s.subrange(0, n as int) == s);
    while n - i >= 2
        invariant
            start <= i <= n,
            n == s.len(),
            s == full_name@,
            last_path_segment(s.subrange(start as int, n as int)) == last_path_segment(s),
            forall|j: int| start <= j < i ==> !#[trigger] separator_at(s, j),
        decreases n - i,
    {
        if full_name.get_char(i) == ':' && full_name.get_char(i + 1) == ':' {
            proof {
                lemma_segment_step(s, start as int, i as int);
            }
            start = i + 2;
            i = i + 2;
        } else {
            assert(!separator_at(s, i as int));
            i = i + 1;
        }
    }
    proof {
        assert forall|j: int| start <= j implies !#[trigger] separator_at(s, j) by {
            if j >= i {
                assert(!(n - i >= 2));
            }
        }
        lemma_segment_end(s, start as int);
    }
    String::from_str(full_name.substring_char(start, n))
}

} // verus!
