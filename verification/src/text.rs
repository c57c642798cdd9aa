//! Character-level helpers shared by the identifier, key and path logic:
//! character classes, decimal rendering of counters, and slash-path
//! splitting, joining and normalization.
use vstd::prelude::*;

verus! {

/// Characters that may appear unchanged in an HTML5-safe anchor id:
/// ASCII letters, digits, `_`, `.` and `-`.
pub open spec fn is_id_char(c: char) -> bool {
    ('a' <= c && c <= 'z') || ('A' <= c && c <= 'Z') || ('0' <= c && c <= '9') || c == '_' || c
        == '.' || c == '-'
}

/// ASCII whitespace, the class collapsed by target-key normalization.
pub open spec fn is_space_char(c: char) -> bool {
    c == ' ' || c == '\t' || c == '\n' || c == '\r' || c == '\u{b}' || c == '\u{c}'
}

/// ASCII decimal digits.
pub open spec fn is_digit_char(c: char) -> bool {
    '0' <= c && c <= '9'
}

/// Relies on std's `String::push`: appends exactly one character at the end.
#[verifier::external_body]
pub fn push_char(s: &mut String, c: char)
    ensures
        final(s)@ == old(s)@.push(c),
{
    s.push(c);
}

/// The decimal digit character for one digit value.
pub open spec fn digit_char(d: nat) -> char {
    if d == 0 {
        '0'
    } else if d == 1 {
        '1'
    } else if d == 2 {
        '2'
    } else if d == 3 {
        '3'
    } else if d == 4 {
        '4'
    } else if d == 5 {
        '5'
    } else if d == 6 {
        '6'
    } else if d == 7 {
        '7'
    } else if d == 8 {
        '8'
    } else {
        '9'
    }
}

/// The usual decimal numeral of `n`, most significant digit first.
pub open spec fn spec_dec(n: nat) -> Seq<char>
    decreases n,
{
    if n < 10 {
        seq![digit_char(n)]
    } else {
        spec_dec(n / 10) + seq![digit_char(n % 10)]
    }
}

pub proof fn lemma_dec_len(n: nat)
    ensures
        spec_dec(n).len() >= 1,
        n >= 10 ==> spec_dec(n).len() >= 2,
    decreases n,
{
    if n >= 10 {
        lemma_dec_len(n / 10);
    }
}

pub proof fn lemma_dec_digits(n: nat)
    ensures
        forall|i: int| 0 <= i < spec_dec(n).len() ==> is_digit_char(#[trigger] spec_dec(n)[i]),
    decreases n,
{
    if n < 10 {
        assert forall|i: int| 0 <= i < spec_dec(n).len() implies is_digit_char(
            #[trigger] spec_dec(n)[i],
        ) by {
            assert(spec_dec(n)[i] == digit_char(n));
        }
    } else {
        lemma_dec_digits(n / 10);
        assert forall|i: int| 0 <= i < spec_dec(n).len() implies is_digit_char(
            #[trigger] spec_dec(n)[i],
        ) by {
            if i < spec_dec(n / 10).len() {
                assert(spec_dec(n)[i] == spec_dec(n / 10)[i]);
            } else {
                assert(spec_dec(n)[i] == digit_char(n % 10));
            }
        }
    }
}

/// Distinct numbers have distinct numerals.
pub proof fn lemma_dec_injective(a: nat, b: nat)
    requires
        spec_dec(a) == spec_dec(b),
    ensures
        a == b,
    decreases a + b,
{
    lemma_dec_len(a);
    lemma_dec_len(b);
    if a < 10 && b < 10 {
        assert(spec_dec(a)[0] == digit_char(a));
        assert(spec_dec(b)[0] == digit_char(b));
    } else if a < 10 && b >= 10 {
        assert(spec_dec(a).len() == 1);
        assert(spec_dec(b).len() == spec_dec(b / 10).len() + 1);
    } else if a >= 10 && b < 10 {
        assert(spec_dec(b).len() == 1);
        assert(spec_dec(a).len() == spec_dec(a / 10).len() + 1);
    } else {
        let la = spec_dec(a / 10).len() as int;
        let lb = spec_dec(b / 10).len() as int;
        assert(spec_dec(a).len() == la + 1);
        assert(spec_dec(b).len() == lb + 1);
        assert(la == lb);
        assert(spec_dec(a)[la] == digit_char(a % 10));
        assert(spec_dec(b)[la] == digit_char(b % 10));
        assert(a % 10 == b % 10);
        assert forall|i: int| 0 <= i < la implies spec_dec(a / 10)[i] == #[trigger] spec_dec(
            b / 10,
        )[i] by {
            assert(spec_dec(a)[i] == spec_dec(a / 10)[i]);
            assert(spec_dec(b)[i] == spec_dec(b / 10)[i]);
        }
        assert(spec_dec(a / 10) =~= spec_dec(b / 10));
        lemma_dec_injective(a / 10, b / 10);
        vstd::arithmetic::div_mod::lemma_fundamental_div_mod(a as int, 10);
        vstd::arithmetic::div_mod::lemma_fundamental_div_mod(b as int, 10);
    }
}

/// Renders `n` in decimal.
pub fn u64_to_dec(n: u64) -> (r: String)
    ensures
        r@ == spec_dec(n as nat),
    decreases n,
{
    let d: char = match n % 10 {
        0 => '0',
        1 => '1',
        2 => '2',
        3 => '3',
        4 => '4',
        5 => '5',
        6 => '6',
        7 => '7',
        8 => '8',
        _ => '9',
    };
    if n < 10 {
        let mut s = String::new();
        push_char(&mut s, d);
        assert(s@ =~= spec_dec(n as nat));
        s
    } else {
        let mut s = u64_to_dec(n / 10);
        push_char(&mut s, d);
        assert(s@ =~= spec_dec(n as nat));
        s
    }
}

/// A candidate anchor id together with its dash-and-numeral
/// disambiguation suffix.
pub open spec fn with_counter(c: Seq<char>, n: nat) -> Seq<char> {
    c + seq!['-'] + spec_dec(n)
}

/// Two suffixed ids agree only when base and counter both agree: the
/// numeral holds no dash, so the dash before it is the last one in the
/// whole string and the decomposition is unambiguous.
pub proof fn lemma_with_counter_injective(c1: Seq<char>, n1: nat, c2: Seq<char>, n2: nat)
    requires
        with_counter(c1, n1) == with_counter(c2, n2),
    ensures
        c1 == c2,
        n1 == n2,
{
    let s = with_counter(c1, n1);
    let l1 = c1.len() as int;
    let l2 = c2.len() as int;
    let d1 = spec_dec(n1);
    let d2 = spec_dec(n2);
    lemma_dec_digits(n1);
    lemma_dec_digits(n2);
    lemma_dec_len(n1);
    lemma_dec_len(n2);
    assert(s.len() == l1 + 1 + d1.len());
    assert(s.len() == l2 + 1 + d2.len());
    assert(s[l1] == (c1 + seq!['-'])[l1]);
    assert(s[l1] == '-');
    assert(s[l2] == (c2 + seq!['-'])[l2]);
    assert(s[l2] == '-');
    if l1 < l2 {
        assert(s[l2] == d1[l2 - (l1 + 1)]);
        assert(is_digit_char(s[l2]));
        assert(false);
    }
    if l2 < l1 {
        assert(s[l1] == d2[l1 - (l2 + 1)]);
        assert(is_digit_char(s[l1]));
        assert(false);
    }
    assert forall|i: int| 0 <= i < l1 implies c1[i] == #[trigger] c2[i] by {
        assert(s[i] == (c1 + seq!['-'])[i]);
        assert(s[i] == (c2 + seq!['-'])[i]);
    }
    assert(c1 =~= c2);
    assert forall|i: int| 0 <= i < d1.len() implies d1[i] == #[trigger] d2[i] by {
        assert(s[l1 + 1 + i] == d1[i]);
        assert(s[l1 + 1 + i] == d2[i]);
    }
    assert(d1 =~= d2);
    lemma_dec_injective(n1, n2);
}

/// Splits a slash-separated path into its raw segments; empty segments
/// (from doubled or trailing slashes, or a leading slash) are kept.
pub open spec fn split_slash(s: Seq<char>) -> Seq<Seq<char>>
    decreases s.len(),
{
    if s.len() == 0 {
        seq![Seq::<char>::empty()]
    } else if s[0] == '/' {
        seq![Seq::<char>::empty()] + split_slash(s.skip(1))
    } else {
        let r = split_slash(s.skip(1));
        r.update(0, seq![s[0]] + r[0])
    }
}

pub proof fn lemma_split_slash_len(s: Seq<char>)
    ensures
        split_slash(s).len() >= 1,
    decreases s.len(),
{
    if s.len() > 0 {
        lemma_split_slash_len(s.skip(1));
    }
}

/// Splits a path string at every slash.
pub fn split_slash_str(s: &str) -> (parts: Vec<String>)
    ensures
        parts.deep_view() == split_slash(s@),
        parts.len() >= 1,
    decreases s@.len(),
{
    let n = s.unicode_len();
    if n == 0 {
        let mut parts: Vec<String> = Vec::new();
        parts.push(String::new());
        assert(parts.deep_view() =~= split_slash(s@));
        parts
    } else {
        let c = s.get_char(0);
        let rest = s.substring_char(1, n);
        assert(rest@ == s@.skip(1));
        let mut parts = split_slash_str(rest);
        proof {
            lemma_split_slash_len(rest@);
        }
        if c == '/' {
            parts.insert(0, String::new());
            assert(parts.deep_view() =~= split_slash(s@));
            parts
        } else {
            let mut head = String::new();
            push_char(&mut head, c);
            head.append(parts[0].as_str());
            let slot = &mut parts[0];
            *slot = head;
            assert(parts.deep_view() =~= split_slash(s@));
            parts
        }
    }
}

/// Whether a normalized rendering keeps this non-leading raw segment:
/// empty segments and lone dots are dropped.
pub open spec fn keep_part(p: Seq<char>) -> bool {
    p.len() > 0 && p != seq!['.']
}

/// The non-leading segments that survive normalization, in order.
pub open spec fn kept_parts(q: Seq<Seq<char>>) -> Seq<Seq<char>>
    decreases q.len(),
{
    if q.len() == 0 {
        Seq::empty()
    } else if keep_part(q.last()) {
        kept_parts(q.drop_last()).push(q.last())
    } else {
        kept_parts(q.drop_last())
    }
}

/// Joins segments with single slashes.
pub open spec fn join_slash(q: Seq<Seq<char>>) -> Seq<char>
    decreases q.len(),
{
    if q.len() == 0 {
        Seq::empty()
    } else if q.len() == 1 {
        q[0]
    } else {
        join_slash(q.drop_last()) + seq!['/'] + q.last()
    }
}

/// The normalized slash-path rendering: the leading raw segment is kept
/// as it stands (so absolute paths keep their leading slash and a
/// leading lone dot survives), later empty or lone-dot segments vanish.
pub open spec fn spec_as_posix(s: Seq<char>) -> Seq<char> {
    join_slash(seq![split_slash(s)[0]] + kept_parts(split_slash(s).skip(1)))
}

/// Renders a path in normalized slash form.
pub fn posix_of(s: &str) -> (r: String)
    ensures
        r@ == spec_as_posix(s@),
{
    let parts = split_slash_str(s);
    let ghost all = split_slash(s@);
    let mut out: String = parts[0].clone();
    let ghost q = all.skip(1);
    let mut i: usize = 1;
    assert(q.take(0) =~= Seq::<Seq<char>>::empty());
    assert(out@ == join_slash(seq![all[0]] + kept_parts(q.take(0))));
    while i < parts.len()
        invariant
            1 <= i <= parts.len(),
            parts.deep_view() == all,
            all.len() == parts.len(),
            q == all.skip(1),
            out@ == join_slash(seq![all[0]] + kept_parts(q.take(i - 1))),
        decreases parts.len() - i,
    {
        let p = &parts[i];
        let ghost prev = seq![all[0]] + kept_parts(q.take(i - 1));
        assert(q.take(i as int) =~= q.take(i - 1).push(q[i - 1]));
        assert(q[i - 1] == all[i as int]);
        assert(q.take(i as int).drop_last() =~= q.take(i - 1));
        let keep = if p.as_str().is_empty() {
            false
        } else if p.unicode_len() == 1 {
            let c = p.as_str().get_char(0);
            c != '.'
        } else {
            true
        };
        proof {
            if p@.len() == 1 && p@[0] == '.' {
                assert(p@ =~= seq!['.']);
            }
            if p@ == seq!['.'] {
                assert(p@[0] == '.');
            }
        }
        assert(keep == keep_part(all[i as int]));
        if keep {
            push_char(&mut out, '/');
            out.append(p.as_str());
            proof {
                let cur = seq![all[0]] + kept_parts(q.take(i as int));
                assert(kept_parts(q.take(i as int)) =~= kept_parts(q.take(i - 1)).push(
                    all[i as int],
                ));
                assert(cur =~= prev.push(all[i as int]));
                assert(cur.drop_last() =~= prev);
                assert(cur.len() >= 2);
                assert(join_slash(cur) == join_slash(prev) + seq!['/'] + all[i as int]);
            }
        } else {
            assert(kept_parts(q.take(i as int)) =~= kept_parts(q.take(i - 1)));
        }
        i = i + 1;
    }
    assert(q.take(parts.len() - 1) =~= q);
    out
}

/// Joining a namespace prefix onto a path: an absolute path replaces
/// the prefix, an empty prefix leaves the path alone, and otherwise a
/// single slash separates the two.
pub open spec fn spec_join(ns: Seq<char>, path: Seq<char>) -> Seq<char> {
    if path.len() > 0 && path[0] == '/' {
        path
    } else if ns.len() == 0 {
        path
    } else {
        ns + seq!['/'] + path
    }
}

/// Prefixes a relative path with a namespace.
pub fn join_path(ns: &str, path: &str) -> (r: String)
    ensures
        r@ == spec_join(ns@, path@),
{
    if !path.is_empty() && path.get_char(0) == '/' {
        return path.to_owned();
    }
    if ns.is_empty() {
        return path.to_owned();
    }
    let mut out = ns.to_owned();
    push_char(&mut out, '/');
    out.append(path);
    out
}

/// The final segment of a slash path (empty when the path ends with a
/// slash or is empty).
pub open spec fn spec_last_component(s: Seq<char>) -> Seq<char> {
    split_slash(s).last()
}

/// Extracts the final path segment.
pub fn last_component(s: &str) -> (r: String)
    ensures
        r@ == spec_last_component(s@),
{
    let parts = split_slash_str(s);
    let r = parts[parts.len() - 1].clone();
    r
}

/// Compares two path or prefix strings character by character.
pub fn str_eq(a: &str, b: &str) -> (r: bool)
    ensures
        r == (a@ == b@),
{
    let n = a.unicode_len();
    let m = b.unicode_len();
    if n != m {
        proof {
            assert(a@ != b@);
        }
        return false;
    }
    let mut j: usize = 0;
    while j < n
        invariant
            0 <= j <= n,
            n == a@.len(),
            n == b@.len(),
            forall|k: int| 0 <= k < j ==> a@[k] == b@[k],
        decreases n - j,
    {
        if a.get_char(j) != b.get_char(j) {
            return false;
        }
        j = j + 1;
    }
    proof {
        assert(a@ =~= b@);
    }
    true
}

/// Whether `s` ends with `suffix`.
pub open spec fn ends_with(s: Seq<char>, suffix: Seq<char>) -> bool {
    suffix.len() <= s.len() && s.skip(s.len() - suffix.len()) == suffix
}

/// Tests whether the path ends with the given suffix, character by
/// character.
pub fn ends_with_str(s: &str, suffix: &str) -> (r: bool)
    ensures
        r == ends_with(s@, suffix@),
{
    let n = s.unicode_len();
    let m = suffix.unicode_len();
    if m > n {
        return false;
    }
    let mut j: usize = 0;
    while j < m
        invariant
            0 <= j <= m,
            m <= n,
            n == s@.len(),
            m == suffix@.len(),
            forall|k: int| 0 <= k < j ==> s@[n - m + k] == suffix@[k],
        decreases m - j,
    {
        if s.get_char(n - m + j) != suffix.get_char(j) {
            return false;
        }
        j = j + 1;
    }
    assert(s@.skip(n - m) =~= suffix@);
    true
}

} // verus!
