//! Byte-level scanning primitives shared by the status decoder: locating a
//! delimiter, splitting on a delimiter byte, whitespace tokenization, and
//! parsing unsigned decimal fields.

use vstd::prelude::*;

verus! {

/// Index of the first occurrence of `d` in `s`, if any.
pub open spec fn spec_find(s: Seq<u8>, d: u8) -> Option<int>
    decreases s.len(),
{
    if s.len() == 0 {
        None
    } else if s[0] == d {
        Some(0int)
    } else {
        match spec_find(s.drop_first(), d) {
            Some(i) => Some(i + 1),
            None => None,
        }
    }
}

/// The first occurrence returned by `spec_find` is exactly characterized by:
/// in range, equal to `d`, and nothing equal to `d` before it; `None` means
/// `d` does not occur at all.
pub proof fn lemma_find_characterization(s: Seq<u8>, d: u8)
    ensures
        match spec_find(s, d) {
            Some(i) => 0 <= i < s.len() && s[i] == d && (forall|j: int| 0 <= j < i ==> s[j] != d),
            None => forall|j: int| 0 <= j < s.len() ==> s[j] != d,
        },
    decreases s.len(),
{
    if s.len() == 0 {
    } else if s[0] == d {
    } else {
        lemma_find_characterization(s.drop_first(), d);
        match spec_find(s.drop_first(), d) {
            Some(i) => {
                assert(s[i + 1] == s.drop_first()[i]);
                assert(forall|j: int| 1 <= j < i + 1 ==> s[j] == s.drop_first()[j - 1]);
            },
            None => {
                assert(forall|j: int| 1 <= j < s.len() ==> s[j] == s.drop_first()[j - 1]);
            },
        }
    }
}

/// First index of `d` in `s`, scanning left to right.
pub fn find_byte(s: &[u8], d: u8) -> (r: Option<usize>)
    ensures
        match r {
            Some(i) => spec_find(s@, d) == Some(i as int),
            None => spec_find(s@, d) is None,
        },
{
    proof {
        lemma_find_characterization(s@, d);
    }
    let n = s.len();
    let mut i: usize = 0;
    while i < n
        invariant
            n == s@.len(),
            0 <= i <= n,
            forall|j: int| 0 <= j < i ==> s@[j] != d,
            match spec_find(s@, d) {
                Some(k) => 0 <= k < s@.len() && s@[k] == d && (forall|j: int| 0 <= j < k ==> s@[j] != d),
                None => forall|j: int| 0 <= j < s@.len() ==> s@[j] != d,
            },
        decreases n - i,
    {
        if s[i] == d {
            return Some(i);
        }
        i += 1;
    }
    None
}

/// Split `s` at every occurrence of `d`, keeping empty segments.  The result
/// always has one more segment than there are occurrences of `d`.
pub open spec fn spec_split(s: Seq<u8>, d: u8) -> Seq<Seq<u8>>
    decreases s.len(),
{
    if s.len() == 0 {
        seq![Seq::<u8>::empty()]
    } else {
        let rest = spec_split(s.drop_first(), d);
        if s[0] == d {
            seq![Seq::<u8>::empty()] + rest
        } else {
            seq![seq![s[0]] + rest.first()] + rest.drop_first()
        }
    }
}

pub proof fn lemma_split_nonempty(s: Seq<u8>, d: u8)
    ensures
        spec_split(s, d).len() >= 1,
    decreases s.len(),
{
    if s.len() != 0 {
        lemma_split_nonempty(s.drop_first(), d);
    }
}

/// A partial segment `pre` glued onto the front of the first segment of `segs`.
pub open spec fn glue_first(pre: Seq<u8>, segs: Seq<Seq<u8>>) -> Seq<Seq<u8>> {
    seq![pre + segs.first()] + segs.drop_first()
}

/// Splits `s` at every occurrence of `d`, keeping empty segments.
pub fn split_on_byte(s: &[u8], d: u8) -> (r: Vec<Vec<u8>>)
    ensures
        r.deep_view() == spec_split(s@, d),
{
    let n = s.len();
    let mut segs: Vec<Vec<u8>> = Vec::new();
    let mut cur: Vec<u8> = Vec::new();
    let mut i: usize = 0;
    proof {
        lemma_split_nonempty(s@, d);
        assert(glue_first(cur@, spec_split(s@.skip(0), d)) =~~= spec_split(s@, d)) by {
            assert(s@.skip(0) =~= s@);
            assert(cur@ + spec_split(s@, d).first() =~= spec_split(s@, d).first());
            assert(glue_first(cur@, spec_split(s@, d)) =~=
                seq![spec_split(s@, d).first()] + spec_split(s@, d).drop_first());
        }
    }
    while i < n
        invariant
            n == s@.len(),
            0 <= i <= n,
            segs.deep_view() + glue_first(cur@, spec_split(s@.skip(i as int), d))
                =~~= spec_split(s@, d),
        decreases n - i,
    {
        let ghost rem = s@.skip(i as int);
        proof {
            assert(rem.len() > 0);
            assert(rem[0] == s@[i as int]);
            assert(rem.drop_first() =~= s@.skip(i as int + 1));
            lemma_split_nonempty(rem.drop_first(), d);
        }
        let c = s[i];
        if c == d {
            let ghost old_segs = segs.deep_view();
            let ghost old_cur = cur@;
            segs.push(cur);
            cur = Vec::new();
            proof {
                let rest = spec_split(s@.skip(i as int + 1), d);
                assert(spec_split(rem, d) == seq![Seq::<u8>::empty()] + rest);
                assert(glue_first(old_cur, seq![Seq::<u8>::empty()] + rest)
                    =~~= seq![old_cur] + glue_first(Seq::<u8>::empty(), rest)) by {
                    assert(old_cur + (seq![Seq::<u8>::empty()] + rest).first() =~= old_cur);
                    assert((seq![Seq::<u8>::empty()] + rest).drop_first() =~= rest);
                    assert(Seq::<u8>::empty() + rest.first() =~= rest.first());
                    assert(glue_first(Seq::<u8>::empty(), rest) =~= seq![rest.first()] + rest.drop_first());
                    assert(seq![rest.first()] + rest.drop_first() =~= rest);
                }
                assert(segs.deep_view() =~~= old_segs + seq![old_cur]);
                assert(segs.deep_view() + glue_first(cur@, rest) =~~=
                    (old_segs + seq![old_cur]) + glue_first(Seq::<u8>::empty(), rest));
            }
        } else {
            let ghost old_cur = cur@;
            cur.push(c);
            proof {
                let rest = spec_split(s@.skip(i as int + 1), d);
                assert(spec_split(rem, d) == seq![seq![rem[0]] + rest.first()] + rest.drop_first());
                assert(glue_first(old_cur, spec_split(rem, d)) =~~= glue_first(cur@, rest)) by {
                    assert((seq![seq![rem[0]] + rest.first()] + rest.drop_first()).first()
                        == seq![rem[0]] + rest.first());
                    assert(old_cur + (seq![rem[0]] + rest.first()) =~= (old_cur + seq![rem[0]]) + rest.first());
                    assert(cur@ =~= old_cur + seq![rem[0]]);
                    assert((seq![seq![rem[0]] + rest.first()] + rest.drop_first()).drop_first() =~= rest.drop_first());
                }
            }
        }
        i += 1;
    }
    proof {
        assert(s@.skip(n as int) =~= Seq::<u8>::empty());
        assert(spec_split(Seq::<u8>::empty(), d) == seq![Seq::<u8>::empty()]);
        assert(glue_first(cur@, seq![Seq::<u8>::empty()]) =~~= seq![cur@]) by {
            assert(cur@ + seq![Seq::<u8>::empty()].first() =~= cur@);
            assert(seq![Seq::<u8>::empty()].drop_first() =~= Seq::<Seq<u8>>::empty());
        }
    }
    let ghost pre = segs.deep_view();
    segs.push(cur);
    proof {
        assert(segs.deep_view() =~~= pre + seq![cur@]);
        assert(segs.deep_view() =~~= spec_split(s@, d));
    }
    segs
}

/// ASCII whitespace, as the player-line field separator.
pub open spec fn is_space(b: u8) -> bool {
    b == 32 || b == 9 || b == 10 || b == 11 || b == 12 || b == 13
}

/// The maximal runs of non-whitespace bytes in `s`, in order.  Runs of
/// whitespace separate tokens and never produce empty tokens.
pub open spec fn spec_tokens(s: Seq<u8>) -> Seq<Seq<u8>>
    decreases s.len(),
{
    if s.len() == 0 {
        Seq::<Seq<u8>>::empty()
    } else {
        let rest = spec_tokens(s.drop_first());
        if is_space(s[0]) {
            rest
        } else if s.len() == 1 || is_space(s[1]) {
            seq![seq![s[0]]] + rest
        } else {
            seq![seq![s[0]] + rest.first()] + rest.drop_first()
        }
    }
}

pub proof fn lemma_tokens_head(s: Seq<u8>)
    requires
        s.len() > 0,
        !is_space(s[0]),
    ensures
        spec_tokens(s).len() >= 1,
    decreases s.len(),
{
    if s.len() > 1 && !is_space(s[1]) {
        lemma_tokens_head(s.drop_first());
    }
}

/// A nonempty partial token `cur` continued by the tokens of `rest`: if
/// `rest` begins with a non-space byte, `cur` fuses with its first token.
pub open spec fn glue_token(cur: Seq<u8>, rest: Seq<u8>) -> Seq<Seq<u8>> {
    if rest.len() > 0 && !is_space(rest[0]) {
        seq![cur + spec_tokens(rest).first()] + spec_tokens(rest).drop_first()
    } else {
        seq![cur] + spec_tokens(rest)
    }
}

/// Splits `s` into its whitespace-separated tokens.
pub fn tokenize(s: &[u8]) -> (r: Vec<Vec<u8>>)
    ensures
        r.deep_view() == spec_tokens(s@),
{
    let n = s.len();
    let mut toks: Vec<Vec<u8>> = Vec::new();
    let mut cur: Vec<u8> = Vec::new();
    let mut i: usize = 0;
    proof {
        assert(s@.skip(0) =~= s@);
    }
    while i < n
        invariant
            n == s@.len(),
            0 <= i <= n,
            cur@.len() == 0 ==> toks.deep_view() + spec_tokens(s@.skip(i as int))
                =~~= spec_tokens(s@),
            cur@.len() > 0 ==> toks.deep_view() + glue_token(cur@, s@.skip(i as int))
                =~~= spec_tokens(s@),
        decreases n - i,
    {
        let ghost rem = s@.skip(i as int);
        let ghost nxt = s@.skip(i as int + 1);
        proof {
            assert(rem.len() > 0);
            assert(rem[0] == s@[i as int]);
            assert(rem.drop_first() =~= nxt);
            assert(rem.len() > 1 ==> rem[1] == s@[i as int + 1] && nxt.len() > 0 && nxt[0] == rem[1]);
        }
        let c = s[i];
        if is_space_byte(c) {
            if cur.len() > 0 {
                let ghost old_toks = toks.deep_view();
                let ghost old_cur = cur@;
                toks.push(cur);
                cur = Vec::new();
                proof {
                    assert(glue_token(old_cur, rem) =~~= seq![old_cur] + spec_tokens(nxt)) by {
                        assert(spec_tokens(rem) == spec_tokens(nxt));
                    }
                    assert(toks.deep_view() =~~= old_toks + seq![old_cur]);
                    assert(toks.deep_view() + spec_tokens(nxt) =~~=
                        (old_toks + seq![old_cur]) + spec_tokens(nxt));
                }
            } else {
                proof {
                    assert(spec_tokens(rem) == spec_tokens(nxt));
                }
            }
        } else {
            let ghost old_cur = cur@;
            cur.push(c);
            proof {
                assert(cur@ =~= old_cur + seq![rem[0]]);
                if rem.len() == 1 || is_space(rem[1]) {
                    assert(spec_tokens(rem) == seq![seq![rem[0]]] + spec_tokens(nxt));
                    if old_cur.len() == 0 {
                        assert(glue_token(cur@, nxt) =~~= spec_tokens(rem)) by {
                            assert(cur@ =~= seq![rem[0]]);
                        }
                    } else {
                        assert(glue_token(old_cur, rem) =~~= glue_token(cur@, nxt)) by {
                            lemma_tokens_head(rem);
                            assert(spec_tokens(rem).first() == seq![rem[0]]);
                            assert(old_cur + seq![rem[0]] =~= cur@);
                            assert(spec_tokens(rem).drop_first() =~= spec_tokens(nxt));
                        }
                    }
                } else {
                    lemma_tokens_head(nxt);
                    let restt = spec_tokens(nxt);
                    assert(spec_tokens(rem) == seq![seq![rem[0]] + restt.first()] + restt.drop_first());
                    if old_cur.len() == 0 {
                        assert(glue_token(cur@, nxt) =~~= spec_tokens(rem)) by {
                            assert(cur@ + restt.first() =~= seq![rem[0]] + restt.first());
                        }
                    } else {
                        assert(glue_token(old_cur, rem) =~~= glue_token(cur@, nxt)) by {
                            assert(spec_tokens(rem).first() == seq![rem[0]] + restt.first());
                            assert(old_cur + (seq![rem[0]] + restt.first()) =~=
                                (old_cur + seq![rem[0]]) + restt.first());
                            assert(spec_tokens(rem).drop_first() =~= restt.drop_first());
                        }
                    }
                }
            }
        }
        i += 1;
    }
    proof {
        assert(s@.skip(n as int) =~= Seq::<u8>::empty());
        assert(spec_tokens(Seq::<u8>::empty()) =~= Seq::<Seq<u8>>::empty());
    }
    if cur.len() > 0 {
        let ghost pre = toks.deep_view();
        let ghost last = cur@;
        proof {
            assert(glue_token(last, Seq::<u8>::empty()) =~~= seq![last]);
        }
        toks.push(cur);
        proof {
            assert(toks.deep_view() =~~= pre + seq![last]);
        }
    }
    toks
}

/// ASCII decimal digit.
pub open spec fn is_digit(b: u8) -> bool {
    48 <= b && b <= 57
}

pub open spec fn all_digits(s: Seq<u8>) -> bool {
    forall|i: int| 0 <= i < s.len() ==> is_digit(s[i])
}

/// Numeric value of a digit string, most significant digit first.
pub open spec fn digits_val(s: Seq<u8>) -> int
    decreases s.len(),
{
    if s.len() == 0 {
        0
    } else {
        digits_val(s.drop_last()) * 10 + (s.last() - 48)
    }
}

pub proof fn lemma_digits_val_nonneg(s: Seq<u8>)
    requires
        all_digits(s),
    ensures
        digits_val(s) >= 0,
    decreases s.len(),
{
    if s.len() > 0 {
        assert(all_digits(s.drop_last()));
        lemma_digits_val_nonneg(s.drop_last());
    }
}

pub proof fn lemma_digits_val_prefix(s: Seq<u8>, k: int)
    requires
        all_digits(s),
        0 <= k <= s.len(),
    ensures
        digits_val(s.take(k)) <= digits_val(s),
    decreases s.len(),
{
    if k == s.len() {
        assert(s.take(k) =~= s);
    } else {
        assert(all_digits(s.drop_last()));
        assert(s.drop_last().take(k) =~= s.take(k));
        lemma_digits_val_prefix(s.drop_last(), k);
        lemma_digits_val_nonneg(s.drop_last());
    }
}

/// The value of an unsigned decimal field, in the form accepted by the
/// standard library's unsigned parsers: an optional leading `+`, then one or
/// more digits, with the value at most `cap`.  Anything else is rejected.
pub open spec fn spec_parse_uint(s: Seq<u8>, cap: u64) -> Option<u64> {
    let body = if s.len() > 0 && s[0] == 43 {
        s.drop_first()
    } else {
        s
    };
    if body.len() > 0 && all_digits(body) && digits_val(body) <= cap as int {
        Some(digits_val(body) as u64)
    } else {
        None
    }
}

/// The field value with the decoder's defaulting policy: an unparsable field
/// counts as zero.
pub open spec fn spec_uint_or_zero(s: Seq<u8>, cap: u64) -> u64 {
    match spec_parse_uint(s, cap) {
        Some(v) => v,
        None => 0u64,
    }
}

/// A field with a byte that is neither a digit nor a leading `+` never
/// parses, whatever the cap.
pub proof fn lemma_unparsable_uint(s: Seq<u8>, i: int, cap: u64)
    requires
        0 <= i < s.len(),
        !is_digit(s[i]),
        !(i == 0 && s[i] == 43),
    ensures
        spec_parse_uint(s, cap) is None,
        spec_uint_or_zero(s, cap) == 0,
{
    if s[0] == 43 {
        assert(i >= 1);
        assert(s.drop_first()[i - 1] == s[i]);
        assert(!all_digits(s.drop_first()));
    } else {
        assert(!all_digits(s));
    }
}

/// Parses an unsigned decimal field bounded by `cap`, yielding zero for
/// anything unparsable or out of range.
pub fn parse_uint_or_zero(s: &[u8], cap: u64) -> (r: u64)
    requires
        cap <= u32::MAX as u64,
    ensures
        r == spec_uint_or_zero(s@, cap),
{
    let n = s.len();
    let mut start: usize = 0;
    if n > 0 && s[0] == 43 {
        start = 1;
    }
    let ghost body = s@.skip(start as int);
    proof {
        if s@.len() > 0 && s@[0] == 43 {
            assert(body =~= s@.drop_first());
        } else {
            assert(body =~= s@);
        }
    }
    if start >= n {
        return 0;
    }
    let mut acc: u64 = 0;
    let mut i: usize = start;
    while i < n
        invariant
            n == s@.len(),
            start <= i <= n,
            start < n,
            cap <= u32::MAX as u64,
            body == s@.skip(start as int),
            body == (if s@.len() > 0 && s@[0] == 43 {
                s@.drop_first()
            } else {
                s@
            }),
            body.len() == n - start,
            forall|j: int| 0 <= j < body.len() ==> body[j] == s@[start + j],
            all_digits(body.take(i - start)),
            acc == digits_val(body.take(i - start)),
            acc <= cap,
        decreases n - i,
    {
        let b = s[i];
        if b < 48 || b > 57 {
            assert(!is_digit(body[i - start]));
            return 0;
        }
        let d: u64 = (b - 48) as u64;
        let next: u64 = acc * 10 + d;
        proof {
            assert(body.take(i - start + 1).drop_last() =~= body.take(i - start));
            assert(body.take(i - start + 1).last() == body[i - start]);
            assert(digits_val(body.take(i - start + 1)) == acc * 10 + d);
            assert(all_digits(body.take(i - start + 1)));
        }
        if next > cap {
            proof {
                if all_digits(body) {
                    lemma_digits_val_prefix(body, i - start + 1);
                }
            }
            return 0;
        }
        acc = next;
        i += 1;
    }
    proof {
        assert(body.take(n - start) =~= body);
    }
    acc
}

/// Whether `b` is an ASCII whitespace byte.
pub fn is_space_byte(b: u8) -> (r: bool)
    ensures
        r == is_space(b),
{
    b == 32 || (9 <= b && b <= 13)
}

} // verus!
