//! Recognising the shapes of a single line: an effective-date statement, a
//! rule line and an example line.
use vstd::prelude::*;
use crate::text::{chars_of, prefix_at, equal_at, string_of};

verus! {

pub open spec fn is_digit(c: char) -> bool {
    '0' <= c && c <= '9'
}

pub open spec fn is_lower(c: char) -> bool {
    'a' <= c && c <= 'z'
}

pub open spec fn all_digits(s: Seq<char>) -> bool {
    forall|i: int| 0 <= i < s.len() ==> is_digit(#[trigger] s[i])
}

/// Non-empty, and no newline in it.
pub open spec fn is_line_text(s: Seq<char>) -> bool {
    s.len() > 0 && forall|i: int| 0 <= i < s.len() ==> #[trigger] s[i] != '\n'
}

/// A rule identifier: `D`, `DDD`, `DDD.D+` or `DDD.D+x` with `D` a decimal
/// digit and `x` a lowercase ASCII letter.
pub open spec fn is_rule_id(s: Seq<char>) -> bool {
    ||| s.len() == 1 && is_digit(s[0])
    ||| s.len() == 3 && all_digits(s)
    ||| s.len() >= 5 && all_digits(s.subrange(0, 3)) && s[3] == '.' && (all_digits(
        s.subrange(4, s.len() as int),
    ) || (s.len() >= 6 && all_digits(s.subrange(4, s.len() - 1)) && is_lower(s.last())))
}

/// `line` reads as a rule id of `k` characters, `d` periods (none or one), a
/// space, and the rule's text.
pub open spec fn is_rule_split(line: Seq<char>, k: int, d: int) -> bool {
    &&& 0 <= d <= 1
    &&& 0 <= k
    &&& k + d + 1 < line.len()
    &&& is_rule_id(line.subrange(0, k))
    &&& (d == 1 ==> line[k] == '.')
    &&& line[k + d] == ' '
    &&& is_line_text(line.subrange(k + d + 1, line.len() as int))
}

/// The id and text of a rule line; `None` for any other line.
pub open spec fn rule_line(line: Seq<char>) -> Option<(Seq<char>, Seq<char>)> {
    if exists|k: int, d: int| is_rule_split(line, k, d) {
        let (k, d) = choose|k: int, d: int| is_rule_split(line, k, d);
        Some((line.subrange(0, k), line.subrange(k + d + 1, line.len() as int)))
    } else {
        None
    }
}

pub open spec fn effective_date_prefix() -> Seq<char> {
    "These rules are effective as of "@
}

/// The date that the line `These rules are effective as of <date>.` names.
pub open spec fn effective_date_line(line: Seq<char>) -> Option<Seq<char>> {
    let n = effective_date_prefix().len();
    if effective_date_prefix().is_prefix_of(line) && line.len() >= n + 2 && line.last() == '.'
        && is_line_text(line.subrange(n as int, line.len() - 1)) {
        Some(line.subrange(n as int, line.len() - 1))
    } else {
        None
    }
}

pub open spec fn example_prefix() -> Seq<char> {
    "Example: "@
}

/// The text of the line `Example: <text>`.
pub open spec fn example_line(line: Seq<char>) -> Option<Seq<char>> {
    let n = example_prefix().len();
    if example_prefix().is_prefix_of(line) && is_line_text(line.subrange(n as int, line.len() as int)) {
        Some(line.subrange(n as int, line.len() as int))
    } else {
        None
    }
}

/// Whether the characters `lo..hi` of `line` are all digits.
fn digits_between(line: &[char], lo: usize, hi: usize) -> (r: bool)
    requires
        lo <= hi <= line@.len(),
    ensures
        r == all_digits(line@.subrange(lo as int, hi as int)),
{
    let mut i: usize = lo;
    while i < hi
        invariant
            lo <= i <= hi <= line@.len(),
            forall|j: int| lo <= j < i ==> is_digit(line@[j]),
        decreases hi - i,
    {
        if !('0' <= line[i] && line[i] <= '9') {
            assert(!is_digit(line@.subrange(lo as int, hi as int)[i - lo]));
            return false;
        }
        i = i + 1;
    }
    assert forall|j: int| 0 <= j < hi - lo implies is_digit(
        #[trigger] line@.subrange(lo as int, hi as int)[j],
    ) by {
        assert(is_digit(line@[lo + j]));
    }
    true
}

/// Whether the characters `lo..` of `line` hold no newline.
fn no_newline_from(line: &[char], lo: usize) -> (r: bool)
    requires
        lo <= line@.len(),
    ensures
        r == forall|j: int| lo <= j < line@.len() ==> line@[j] != '\n',
{
    let mut i: usize = lo;
    while i < line.len()
        invariant
            lo <= i <= line@.len(),
            forall|j: int| lo <= j < i ==> line@[j] != '\n',
        decreases line@.len() - i,
    {
        if line[i] == '\n' {
            return false;
        }
        i = i + 1;
    }
    true
}

/// Whether the first `k` characters of `line` form a rule id.
fn rule_id_prefix(line: &[char], k: usize) -> (r: bool)
    requires
        k <= line@.len(),
    ensures
        r == is_rule_id(line@.subrange(0, k as int)),
{
    let ghost s = line@.subrange(0, k as int);
    if k == 1 {
        '0' <= line[0] && line[0] <= '9'
    } else if k == 3 {
        let r = digits_between(line, 0, 3);
        assert(s =~= line@.subrange(0, 3));
        r
    } else if k >= 5 {
        assert(s.subrange(0, 3) =~= line@.subrange(0, 3));
        assert(s.subrange(4, k as int) =~= line@.subrange(4, k as int));
        assert(s.subrange(4, k - 1) =~= line@.subrange(4, k - 1));
        if !digits_between(line, 0, 3) || line[3] != '.' {
            return false;
        }
        if digits_between(line, 4, k) {
            return true;
        }
        k >= 6 && digits_between(line, 4, k - 1) && 'a' <= line[k - 1] && line[k - 1] <= 'z'
    } else {
        false
    }
}

pub proof fn lemma_rule_id_chars(s: Seq<char>)
    requires
        is_rule_id(s),
    ensures
        s.len() >= 1,
        is_digit(s[0]),
        forall|i: int| 0 <= i < s.len() ==> #[trigger] s[i] != ' ',
        s.last() != '.',
{
    if s.len() >= 5 {
        assert forall|i: int| 0 <= i < s.len() implies #[trigger] s[i] != ' ' by {
            if i < 3 {
                assert(s.subrange(0, 3)[i] == s[i]);
            } else if i > 3 && i < s.len() - 1 {
                assert(s.subrange(4, s.len() - 1)[i - 4] == s[i]);
                assert(s.subrange(4, s.len() as int)[i - 4] == s[i]);
            } else if i == s.len() - 1 {
                assert(s.subrange(4, s.len() as int)[i - 4] == s[i]);
            }
        }
        assert(s.subrange(4, s.len() as int)[s.len() - 5] == s.last());
        assert(s.subrange(0, 3)[0] == s[0]);
    } else if s.len() == 3 {
        assert(is_digit(s[0]) && is_digit(s[1]) && is_digit(s[2]));
    }
}

/// Every split of a line ends its id part at the first space `p`, with a
/// period before the space exactly when one precedes it.
proof fn lemma_split_at_first_space(line: Seq<char>, k: int, d: int, p: int)
    requires
        is_rule_split(line, k, d),
        0 <= p < line.len(),
        line[p] == ' ',
        forall|j: int| 0 <= j < p ==> line[j] != ' ',
    ensures
        k + d == p,
        p >= 1,
        d == 1 <==> line[p - 1] == '.',
{
    let id = line.subrange(0, k);
    lemma_rule_id_chars(id);
    assert forall|j: int| 0 <= j < k + d implies line[j] != ' ' by {
        if j < k {
            assert(id[j] == line[j]);
        }
    }
    assert(id[k - 1] == line[k - 1]);
}

/// Splits a rule line into its id and its text.
pub fn parse_rule_line(line: &[char]) -> (r: Option<(String, String)>)
    ensures
        match r {
            Some((id, text)) => rule_line(line@) == Some((id@, text@)),
            None => rule_line(line@) is None,
        },
{
    let n = line.len();
    let mut p: usize = 0;
    while p < n && line[p] != ' '
        invariant
            p <= n == line@.len(),
            forall|j: int| 0 <= j < p ==> line@[j] != ' ',
        decreases n - p,
    {
        p = p + 1;
    }
    if p == n || p == 0 {
        assert forall|k: int, d: int| !is_rule_split(line@, k, d) by {
            if is_rule_split(line@, k, d) {
                if p == 0 {
                    lemma_split_at_first_space(line@, k, d, p as int);
                } else {
                    assert(line@[k + d] == ' ');
                }
            }
        }
        return None;
    }
    let (k, d) = if line[p - 1] == '.' { (p - 1, 1usize) } else { (p, 0usize) };
    let ok = p + 1 < n && rule_id_prefix(line, k) && no_newline_from(line, p + 1);
    proof {
        assert forall|k2: int, d2: int| is_rule_split(line@, k2, d2) implies k2 == k && d2 == d by {
            lemma_split_at_first_space(line@, k2, d2, p as int);
        }
    }
    if ok {
        assert(is_rule_split(line@, k as int, d as int));
        let id = string_of(line, 0, k);
        let text = string_of(line, p + 1, n);
        Some((id, text))
    } else {
        assert forall|k2: int, d2: int| !is_rule_split(line@, k2, d2) by {
            if is_rule_split(line@, k2, d2) {
                lemma_split_at_first_space(line@, k2, d2, p as int);
                let t = line@.subrange(p + 1, n as int);
                assert forall|j: int| p + 1 <= j < n implies line@[j] != '\n' by {
                    assert(t[j - p - 1] == line@[j]);
                }
            }
        }
        None
    }
}

/// The date named by an effective-date statement.
pub fn parse_effective_date(line: &[char]) -> (r: Option<String>)
    ensures
        match r {
            Some(date) => effective_date_line(line@) == Some(date@),
            None => effective_date_line(line@) is None,
        },
{
    let pre = chars_of("These rules are effective as of ");
    let n = line.len();
    let m = pre.len();
    assert(line@.subrange(0, n as int) =~= line@);
    if !prefix_at(pre.as_slice(), line, 0, n) || n - m < 2 || line[n - 1] != '.' {
        return None;
    }
    let mut i: usize = m;
    while i < n - 1
        invariant
            m <= i <= n - 1,
            n == line@.len(),
            n >= m + 2,
            m == effective_date_prefix().len(),
            effective_date_prefix().is_prefix_of(line@),
            line@.last() == '.',
            forall|j: int| m <= j < i ==> line@[j] != '\n',
        decreases n - 1 - i,
    {
        if line[i] == '\n' {
            assert(line@.subrange(m as int, n - 1)[i - m] == '\n');
            return None;
        }
        i = i + 1;
    }
    assert forall|j: int| 0 <= j < n - 1 - m implies #[trigger] line@.subrange(m as int, n - 1)[j] != '\n' by {
        assert(line@.subrange(m as int, n - 1)[j] == line@[m + j]);
    }
    Some(string_of(line, m, n - 1))
}

/// The text of an example line.
pub fn parse_example_line(line: &[char]) -> (r: Option<String>)
    ensures
        match r {
            Some(text) => example_line(line@) == Some(text@),
            None => example_line(line@) is None,
        },
{
    let pre = chars_of("Example: ");
    let n = line.len();
    let m = pre.len();
    assert(line@.subrange(0, n as int) =~= line@);
    if !prefix_at(pre.as_slice(), line, 0, n) || n <= m {
        return None;
    }
    if !no_newline_from(line, m) {
        assert(exists|j: int| m <= j < n && line@[j] == '\n');
        let ghost j = choose|j: int| m <= j < n && line@[j] == '\n';
        assert(line@.subrange(m as int, n as int)[j - m] == '\n');
        return None;
    }
    assert forall|j: int| 0 <= j < n - m implies #[trigger] line@.subrange(m as int, n as int)[j] != '\n' by {
        assert(line@.subrange(m as int, n as int)[j] == line@[m + j]);
    }
    Some(string_of(line, m, n))
}

/// Whether `line` is exactly `word`.
pub fn line_is(line: &[char], word: &str) -> (r: bool)
    ensures
        r == (line@ == word@),
{
    let w = chars_of(word);
    let r = equal_at(w.as_slice(), line, 0, line.len());
    assert(line@.subrange(0, line@.len() as int) =~= line@);
    r
}

} // verus!
