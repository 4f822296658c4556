//! Character and string helpers shared by the console: normalization
//! (trimming and Unicode lowercasing, named results of the std calls),
//! tokenization, and lexicographic ordering of names.

use vstd::prelude::*;

verus! {

/// The whitespace characters the console separates tokens on: space,
/// horizontal tab, line feed, vertical tab, form feed, carriage return.
pub open spec fn is_space(c: char) -> bool {
    c == ' ' || c == '\t' || c == '\n' || c == '\r' || c == '\u{000B}' || c == '\u{000C}'
}

/// What `str::trim` leaves: the input without its leading and trailing
/// whitespace, a function of the characters alone.
pub uninterp spec fn trim_of(s: Seq<char>) -> Seq<char>;

/// What `str::to_lowercase` yields: the input folded to lowercase by the
/// Unicode mapping, a function of the characters alone.
pub uninterp spec fn lower_of(s: Seq<char>) -> Seq<char>;

/// What `normalize` returns: the input trimmed, then lowercased.
pub open spec fn normal_seq(s: Seq<char>) -> Seq<char> {
    lower_of(trim_of(s))
}

/// The whitespace-separated tokens of `s`, with `cur` the partial token
/// read so far.
pub open spec fn tokens_acc(s: Seq<char>, cur: Seq<char>) -> Seq<Seq<char>>
    decreases s.len(),
{
    if s.len() == 0 {
        if cur.len() == 0 {
            Seq::empty()
        } else {
            seq![cur]
        }
    } else if is_space(s[0]) {
        if cur.len() == 0 {
            tokens_acc(s.drop_first(), Seq::empty())
        } else {
            seq![cur] + tokens_acc(s.drop_first(), Seq::empty())
        }
    } else {
        tokens_acc(s.drop_first(), cur.push(s[0]))
    }
}

/// The whitespace-separated tokens of `s`, in order, each non-empty.
pub open spec fn tokens(s: Seq<char>) -> Seq<Seq<char>> {
    tokens_acc(s, Seq::empty())
}

/// Lexicographic order on character sequences, by Unicode code point.
pub open spec fn seq_le(a: Seq<char>, b: Seq<char>) -> bool
    decreases a.len(),
{
    if a.len() == 0 {
        true
    } else if b.len() == 0 {
        false
    } else if a[0] == b[0] {
        seq_le(a.drop_first(), b.drop_first())
    } else {
        (a[0] as int) < (b[0] as int)
    }
}

/// Lexicographic order is total: any two sequences are comparable.
pub proof fn lemma_seq_le_total(a: Seq<char>, b: Seq<char>)
    ensures
        seq_le(a, b) || seq_le(b, a),
    decreases a.len(),
{
    if a.len() > 0 && b.len() > 0 {
        if a[0] == b[0] {
            lemma_seq_le_total(a.drop_first(), b.drop_first());
        }
    }
}

/// Lexicographic order is antisymmetric: mutually ordered sequences are equal.
pub proof fn lemma_seq_le_antisym(a: Seq<char>, b: Seq<char>)
    requires
        seq_le(a, b),
        seq_le(b, a),
    ensures
        a == b,
    decreases a.len(),
{
    if a.len() == 0 {
        assert(b.len() == 0);
        assert(a =~= b);
    } else {
        assert(b.len() > 0);
        assert(a[0] == b[0]);
        lemma_seq_le_antisym(a.drop_first(), b.drop_first());
        assert(a =~= seq![a[0]] + a.drop_first());
        assert(b =~= seq![b[0]] + b.drop_first());
    }
}

/// Lexicographic order is transitive.
pub proof fn lemma_seq_le_trans(a: Seq<char>, b: Seq<char>, c: Seq<char>)
    requires
        seq_le(a, b),
        seq_le(b, c),
    ensures
        seq_le(a, c),
    decreases a.len(),
{
    if a.len() > 0 {
        assert(b.len() > 0);
        assert(c.len() > 0);
        if a[0] == b[0] && b[0] == c[0] {
            lemma_seq_le_trans(a.drop_first(), b.drop_first(), c.drop_first());
        }
    }
}

/// Exec mirror of `is_space`.
pub fn is_space_char(c: char) -> (r: bool)
    ensures
        r == is_space(c),
{
    c == ' ' || c == '\t' || c == '\n' || c == '\r' || c == '\u{000B}' || c == '\u{000C}'
}

/// Relies on `String::push`: appends exactly one character to the string.
#[verifier::external_body]
pub(crate) fn push_char(s: &mut String, c: char)
    ensures
        final(s)@ == old(s)@.push(c),
{
    s.push(c);
}

/// The characters of a string slice, as a vector.
pub fn chars_of(s: &str) -> (v: Vec<char>)
    ensures
        v@ == s@,
{
    let n: usize = s.unicode_len();
    let mut v: Vec<char> = Vec::new();
    let mut i: usize = 0;
    while i < n
        invariant
            0 <= i <= n,
            n == s@.len(),
            v@ == s@.take(i as int),
        decreases n - i,
    {
        let c = s.get_char(i);
        v.push(c);
        proof {
            assert(s@.take(i + 1) =~= s@.take(i as int).push(s@[i as int]));
        }
        i = i + 1;
    }
    proof {
        assert(s@.take(n as int) =~= s@);
    }
    v
}

/// Relies on `str::trim`: returns the input without its leading and
/// trailing whitespace, so never longer than the input.
#[verifier::external_body]
fn trim_str(s: &str) -> (r: &str)
    ensures
        r@ == trim_of(s@),
        r@.len() <= s@.len(),
{
    s.trim()
}

/// Relies on `str::to_lowercase`: the result depends on the characters
/// alone, and an empty input stays empty.
#[verifier::external_body]
fn lowercase_str(s: &str) -> (r: String)
    ensures
        r@ == lower_of(s@),
        s@.len() == 0 ==> r@.len() == 0,
{
    s.to_lowercase()
}

/// Trims whitespace from both ends and lowercases what remains, exactly
/// as the console normalizes each input line before dispatching it.
pub fn normalize(input: &str) -> (r: String)
    ensures
        r@ == normal_seq(input@),
{
    let trimmed = trim_str(input);
    lowercase_str(trimmed)
}

/// Splits on runs of whitespace, exactly as the console turns a normalized
/// line into its command name and arguments.
pub fn tokenize(s: &str) -> (toks: Vec<String>)
    ensures
        toks@.map_values(|t: String| t@) == tokens(s@),
{
    let chars = chars_of(s);
    let n: usize = chars.len();
    let mut out: Vec<String> = Vec::new();
    let mut cur = String::new();
    let mut i: usize = 0;
    proof {
        assert(s@.skip(0) =~= s@);
        assert(out@.map_values(|t: String| t@) + tokens_acc(s@, cur@) =~= tokens_acc(s@, cur@));
    }
    while i < n
        invariant
            0 <= i <= n,
            n == chars@.len(),
            chars@ == s@,
            tokens(s@) == out@.map_values(|t: String| t@) + tokens_acc(
                s@.skip(i as int),
                cur@,
            ),
        decreases n - i,
    {
        let ghost rest = s@.skip(i as int);
        proof {
            assert(rest.len() > 0);
            assert(rest[0] == s@[i as int]);
            assert(rest.drop_first() =~= s@.skip(i + 1));
        }
        let c = chars[i];
        if is_space_char(c) {
            if cur.as_str().unicode_len() > 0 {
                let ghost oo = out@;
                let ghost cv = cur@;
                proof {
                    assert(tokens_acc(rest, cv) == seq![cv] + tokens_acc(
                        s@.skip(i + 1),
                        Seq::<char>::empty(),
                    ));
                }
                let done = cur;
                out.push(done);
                cur = String::new();
                proof {
                    assert(out@ =~= oo.push(out@.last()));
                    lemma_views_push(oo, out@.last());
                    assert((oo.map_values(|t: String| t@) + seq![cv]) + tokens_acc(
                        s@.skip(i + 1),
                        Seq::<char>::empty(),
                    ) =~= oo.map_values(|t: String| t@) + (seq![cv] + tokens_acc(
                        s@.skip(i + 1),
                        Seq::<char>::empty(),
                    )));
                }
            } else {
                proof {
                    assert(cur@ =~= Seq::<char>::empty());
                }
            }
        } else {
            push_char(&mut cur, c);
        }
        i = i + 1;
    }
    proof {
        assert(s@.skip(n as int) =~= Seq::<char>::empty());
    }
    if cur.as_str().unicode_len() > 0 {
        let ghost oo = out@;
        let ghost cv = cur@;
        let done = cur;
        out.push(done);
        proof {
            assert(out@ =~= oo.push(out@.last()));
            lemma_views_push(oo, out@.last());
            assert(oo.map_values(|t: String| t@) + seq![cv] =~= oo.map_values(
                |t: String| t@,
            ).push(cv));
        }
    } else {
        proof {
            assert(out@.map_values(|t: String| t@) + Seq::<Seq<char>>::empty() =~= out@.map_values(
                |t: String| t@,
            ));
        }
    }
    out
}

/// Pushing a string onto a vector appends its view to the sequence of views.
proof fn lemma_views_push(ss: Seq<String>, x: String)
    ensures
        ss.push(x).map_values(|t: String| t@) =~= ss.map_values(|t: String| t@) + seq![x@],
{
}

/// Exec comparison deciding `seq_le` on two strings.
pub fn str_le(a: &str, b: &str) -> (r: bool)
    ensures
        r == seq_le(a@, b@),
{
    let an: usize = a.unicode_len();
    let bn: usize = b.unicode_len();
    let mut i: usize = 0;
    proof {
        assert(a@.skip(0) =~= a@);
        assert(b@.skip(0) =~= b@);
    }
    loop
        invariant
            0 <= i <= an,
            i <= bn,
            an == a@.len(),
            bn == b@.len(),
            seq_le(a@, b@) == seq_le(a@.skip(i as int), b@.skip(i as int)),
        decreases an - i,
    {
        let ghost ra = a@.skip(i as int);
        let ghost rb = b@.skip(i as int);
        if i == an {
            proof {
                assert(ra.len() == 0);
            }
            return true;
        }
        if i == bn {
            proof {
                assert(ra.len() > 0 && rb.len() == 0);
            }
            return false;
        }
        let ca = a.get_char(i);
        let cb = b.get_char(i);
        proof {
            assert(ra[0] == a@[i as int] && rb[0] == b@[i as int]);
            assert(ra.drop_first() =~= a@.skip(i + 1));
            assert(rb.drop_first() =~= b@.skip(i + 1));
        }
        if ca == cb {
            i = i + 1;
        } else {
            proof {
                assert((ca as u32) as int == ca as int);
                assert((cb as u32) as int == cb as int);
            }
            return (ca as u32) < (cb as u32);
        }
    }
}


/// The lexicographic order as a function value, for use with `sort_by`.
pub open spec fn seq_le_fn() -> spec_fn(Seq<char>, Seq<char>) -> bool {
    |a: Seq<char>, b: Seq<char>| seq_le(a, b)
}

/// The lexicographic order is a total order.
pub proof fn lemma_seq_le_total_ordering()
    ensures
        vstd::relations::total_ordering(seq_le_fn()),
{
    let leq = seq_le_fn();
    assert forall|x: Seq<char>| #[trigger] leq(x, x) by {
        lemma_seq_le_total(x, x);
    }
    assert forall|x: Seq<char>, y: Seq<char>|
        #[trigger] leq(x, y) && #[trigger] leq(y, x) implies x == y by {
        lemma_seq_le_antisym(x, y);
    }
    assert forall|x: Seq<char>, y: Seq<char>, z: Seq<char>|
        #[trigger] leq(x, y) && #[trigger] leq(y, z) implies leq(x, z) by {
        lemma_seq_le_trans(x, y, z);
    }
    assert forall|x: Seq<char>, y: Seq<char>| #[trigger] leq(x, y) || #[trigger] leq(y, x) by {
        lemma_seq_le_total(x, y);
    }
}

/// Whether `p` is a prefix of `s`.
pub open spec fn is_prefix(p: Seq<char>, s: Seq<char>) -> bool {
    p.len() <= s.len() && s.take(p.len() as int) == p
}

/// The predicate picking the names that begin with `p`.
pub open spec fn prefix_pred(p: Seq<char>) -> spec_fn(Seq<char>) -> bool {
    |s: Seq<char>| is_prefix(p, s)
}

/// Decides whether `p` is a prefix of `s`.
pub fn starts_with(s: &str, p: &str) -> (r: bool)
    ensures
        r == is_prefix(p@, s@),
{
    let pn: usize = p.unicode_len();
    let sn: usize = s.unicode_len();
    if pn > sn {
        proof {
            assert(!is_prefix(p@, s@));
        }
        return false;
    }
    let mut i: usize = 0;
    while i < pn
        invariant
            0 <= i <= pn <= sn,
            pn == p@.len(),
            sn == s@.len(),
            forall|j: int| 0 <= j < i ==> p@[j] == s@[j],
        decreases pn - i,
    {
        if s.get_char(i) != p.get_char(i) {
            proof {
                assert(s@.take(pn as int)[i as int] != p@[i as int]);
            }
            return false;
        }
        i = i + 1;
    }
    proof {
        assert(s@.take(pn as int) =~= p@);
    }
    true
}

} // verus!
