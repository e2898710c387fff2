//! The boguscoin address rewrite of the line-rewriting proxy.
//!
//! A line is split into words at runs of ASCII whitespace; every word that
//! looks like a boguscoin address — it starts with '7', is 26 to 35 bytes
//! long and consists of letters and digits only — is replaced by Tony's
//! address, and the words are joined again with single spaces.  A trailing
//! newline is whitespace and so never part of a word.

use vstd::prelude::*;
use vstd::string::StrSliceExecFns;
use crate::text::char_is_alphanumeric;
use crate::text::char_utf8_len;
use crate::text::lemma_utf8_len_empty;
use crate::text::lemma_utf8_len_snoc;
use crate::text::unicode_alnum;
use crate::text::utf8_len;

verus! {

/// ASCII whitespace, as the splitting rule sees it.
pub open spec fn is_ws(c: char) -> bool {
    c == ' ' || c == '\t' || c == '\n' || c == '\r' || c == '\x0c'
}

/// Length of the maximal non-whitespace run at the front.
pub open spec fn word_len(s: Seq<char>) -> nat
    decreases s.len(),
{
    if s.len() == 0 || is_ws(s[0]) {
        0
    } else {
        1 + word_len(s.drop_first())
    }
}

/// The words of a line: its maximal non-whitespace runs, in order.
pub open spec fn spec_words(s: Seq<char>) -> Seq<Seq<char>>
    decreases s.len(),
{
    if s.len() == 0 {
        Seq::empty()
    } else {
        let rest = spec_words(s.drop_first());
        if is_ws(s[0]) {
            rest
        } else if s.len() >= 2 && !is_ws(s[1]) {
            seq![seq![s[0]] + rest[0]] + rest.drop_first()
        } else {
            seq![seq![s[0]]] + rest
        }
    }
}

/// A word that looks like a boguscoin address: 26 to 35 bytes of UTF-8,
/// opening with '7', alphanumeric throughout.
pub open spec fn spec_is_bogus(w: Seq<char>) -> bool {
    &&& utf8_len(w) >= 26
    &&& utf8_len(w) <= 35
    &&& w[0] == '7'
    &&& forall|k: int| 0 <= k < w.len() ==> unicode_alnum(#[trigger] w[k])
}

/// What one word becomes.
pub open spec fn spec_rw_word(w: Seq<char>) -> Seq<char> {
    if spec_is_bogus(w) {
        "7YWHMfk9JZe0LM0g1ZauHuiSxhI"@
    } else {
        w
    }
}

pub open spec fn spec_rewritten(ws: Seq<Seq<char>>) -> Seq<Seq<char>> {
    ws.map(|i: int, w: Seq<char>| spec_rw_word(w))
}

/// Words joined with single spaces.
pub open spec fn spec_join(ws: Seq<Seq<char>>) -> Seq<char>
    decreases ws.len(),
{
    if ws.len() == 0 {
        Seq::empty()
    } else if ws.len() == 1 {
        ws[0]
    } else {
        ws[0] + seq![' '] + spec_join(ws.drop_first())
    }
}

/// The whole rewrite, as a function of the line's characters.
pub open spec fn spec_bogus_rewrite(s: Seq<char>) -> Seq<char> {
    spec_join(spec_rewritten(spec_words(s)))
}

// ---------------------------------------------------------------------------
// Lemmas
// ---------------------------------------------------------------------------

/// A word never runs past the end.
pub proof fn lemma_word_len_le(s: Seq<char>)
    ensures
        word_len(s) <= s.len(),
    decreases s.len(),
{
    if s.len() > 0 && !is_ws(s[0]) {
        lemma_word_len_le(s.drop_first());
    }
}

/// The scan that stops at the first whitespace finds the word length.
pub proof fn lemma_word_len_first(s: Seq<char>, m: int)
    requires
        0 <= m <= s.len(),
        forall|k: int| 0 <= k < m ==> !is_ws(#[trigger] s[k]),
        m == s.len() || is_ws(s[m]),
    ensures
        word_len(s) == m,
    decreases s.len(),
{
    if s.len() > 0 {
        if m == 0 {
        } else {
            assert(!is_ws(s[0]));
            assert(forall|k: int|
                0 <= k < m - 1 ==> !is_ws(#[trigger] s.drop_first()[k]) || s.drop_first()[k]
                    != s[k + 1]);
            assert(forall|k: int| 0 <= k < m - 1 ==> s.drop_first()[k] == s[k + 1]);
            assert(m - 1 == s.drop_first().len() || is_ws(s.drop_first()[m - 1]));
            lemma_word_len_first(s.drop_first(), m - 1);
        }
    }
}

/// A line that starts with a word is that word, then the words of what
/// follows it.
pub proof fn lemma_words_structure(s: Seq<char>)
    requires
        s.len() > 0,
        !is_ws(s[0]),
    ensures
        word_len(s) >= 1,
        word_len(s) <= s.len(),
        spec_words(s) == seq![s.take(word_len(s) as int)] + spec_words(
            s.skip(word_len(s) as int),
        ),
    decreases s.len(),
{
    lemma_word_len_le(s);
    let wl = word_len(s) as int;
    let rest = spec_words(s.drop_first());
    if s.len() >= 2 && !is_ws(s[1]) {
        lemma_words_structure(s.drop_first());
        let dwl = word_len(s.drop_first()) as int;
        assert(wl == 1 + dwl);
        assert(rest == seq![s.drop_first().take(dwl)] + spec_words(s.drop_first().skip(dwl)));
        assert(rest[0] == s.drop_first().take(dwl));
        assert(seq![s[0]] + rest[0] =~= s.take(wl));
        assert(rest.drop_first() =~= spec_words(s.drop_first().skip(dwl)));
        assert(s.drop_first().skip(dwl) =~= s.skip(wl));
        assert(spec_words(s) == seq![seq![s[0]] + rest[0]] + rest.drop_first());
        assert(spec_words(s) =~= seq![s.take(wl)] + spec_words(s.skip(wl)));
    } else {
        assert(s.drop_first().len() == 0 || is_ws(s.drop_first()[0]));
        assert(word_len(s.drop_first()) == 0);
        assert(wl == 1);
        assert(s.take(1) =~= seq![s[0]]);
        assert(s.skip(1) =~= s.drop_first());
        assert(spec_words(s) == seq![seq![s[0]]] + rest);
        assert(spec_words(s) =~= seq![s.take(wl)] + spec_words(s.skip(wl)));
    }
}

/// Joining one more word appends a separating space, except to the first.
pub proof fn lemma_join_snoc(ws: Seq<Seq<char>>, w: Seq<char>)
    ensures
        spec_join(ws.push(w)) == if ws.len() == 0 {
            w
        } else {
            spec_join(ws) + seq![' '] + w
        },
    decreases ws.len(),
{
    if ws.len() == 0 {
        assert(ws.push(w).len() == 1);
        assert(ws.push(w)[0] == w);
    } else {
        lemma_join_snoc(ws.drop_first(), w);
        assert(ws.push(w).drop_first() =~= ws.drop_first().push(w));
        assert(ws.push(w)[0] == ws[0]);
        if ws.len() == 1 {
            assert(ws.drop_first().len() == 0);
            assert(spec_join(ws.push(w)) == ws[0] + seq![' '] + w);
            assert(spec_join(ws) == ws[0]);
        } else {
            assert(spec_join(ws.push(w)) == ws[0] + seq![' '] + (spec_join(ws.drop_first())
                + seq![' '] + w));
            assert(spec_join(ws) == ws[0] + seq![' '] + spec_join(ws.drop_first()));
            assert(ws[0] + seq![' '] + (spec_join(ws.drop_first()) + seq![' '] + w) =~= (ws[0]
                + seq![' '] + spec_join(ws.drop_first())) + seq![' '] + w);
        }
    }
}

// ---------------------------------------------------------------------------
// Executable code
// ---------------------------------------------------------------------------

/// Whether `c` is ASCII whitespace.
pub fn ch_is_ws(c: char) -> (r: bool)
    ensures
        r == is_ws(c),
{
    c == ' ' || c == '\t' || c == '\n' || c == '\r' || c == '\x0c'
}

/// Relies on `String`'s `FromIterator<char>` implementation: collecting an
/// iterator of characters builds the string of exactly those characters.
#[verifier::external_body]
fn string_from_chars(v: &Vec<char>) -> (r: String)
    ensures
        r@ == v@,
{
    v.iter().collect()
}

/// Rewrites one chat line: every word shaped like a boguscoin address
/// becomes Tony's address, and the words come back joined by single spaces.
pub fn do_the_boguscoin_rewrite(input: &str) -> (r: String)
    ensures
        r@ == spec_bogus_rewrite(input@),
{
    let ghost s = input@;
    let n = input.unicode_len();
    let mut chars: Vec<char> = Vec::new();
    let mut ci: usize = 0;
    while ci < n
        invariant
            ci <= n,
            n == s.len(),
            s == input@,
            chars@ =~= s.take(ci as int),
        decreases n - ci,
    {
        chars.push(input.get_char(ci));
        ci += 1;
    }
    proof {
        assert(s.take(n as int) =~= s);
    }
    let mut out: Vec<char> = Vec::new();
    let mut first = true;
    let ghost mut wsdone: Seq<Seq<char>> = Seq::empty();
    let mut i: usize = 0;
    proof {
        assert(s.skip(0) =~= s);
        assert(spec_rewritten(wsdone) =~= Seq::<Seq<char>>::empty());
    }
    while i < n
        invariant
            i <= n,
            n == s.len(),
            chars@ == s,
            spec_words(s) == wsdone + spec_words(s.skip(i as int)),
            out@ == spec_join(spec_rewritten(wsdone)),
            first == (wsdone.len() == 0),
        decreases n - i,
    {
        if ch_is_ws(chars[i]) {
            proof {
                assert(s.skip(i as int)[0] == s[i as int]);
                assert(s.skip(i as int).drop_first() =~= s.skip(i as int + 1));
            }
            i += 1;
        } else {
            let mut j = i;
            let mut word: Vec<char> = Vec::new();
            let mut alnum = true;
            let mut blen: usize = 0;
            proof {
                assert(s.subrange(i as int, i as int) =~= Seq::<char>::empty());
                lemma_utf8_len_empty();
            }
            while j < n && !ch_is_ws(chars[j])
                invariant
                    i <= j <= n,
                    n == s.len(),
                    chars@ == s,
                    i < n,
                    !is_ws(s[i as int]),
                    forall|k: int| i <= k < j ==> !is_ws(#[trigger] s[k]),
                    word@ =~= s.subrange(i as int, j as int),
                    alnum == (forall|k: int| i <= k < j ==> unicode_alnum(#[trigger] s[k])),
                    blen <= 40,
                    utf8_len(s.subrange(i as int, j as int)) <= 36 ==> blen as int == utf8_len(
                        s.subrange(i as int, j as int),
                    ),
                    utf8_len(s.subrange(i as int, j as int)) > 36 ==> blen > 36,
                decreases n - j,
            {
                let c = chars[j];
                let ca = char_is_alphanumeric(c);
                proof {
                    if alnum && !ca {
                        assert(!unicode_alnum(s[j as int]));
                    }
                    assert(s.subrange(i as int, j as int + 1) =~= s.subrange(
                        i as int,
                        j as int,
                    ).push(s[j as int]));
                    lemma_utf8_len_snoc(s.subrange(i as int, j as int), s[j as int]);
                }
                alnum = alnum && ca;
                let cl = char_utf8_len(c);
                if blen <= 36 {
                    blen = blen + cl;
                }
                word.push(c);
                j += 1;
            }
            proof {
                assert(j > i) by {
                    if j == i {
                        assert(j == n || is_ws(s[j as int]));
                    }
                }
                let m = j - i;
                let t = s.skip(i as int);
                assert(forall|k: int| 0 <= k < m ==> t[k] == s[i + k]);
                assert(forall|k: int| 0 <= k < m ==> !is_ws(#[trigger] t[k]));
                assert(m == t.len() || is_ws(t[m as int]));
                lemma_word_len_first(t, m as int);
                lemma_words_structure(t);
                assert(t.take(m as int) =~= word@);
                assert(t.skip(m as int) =~= s.skip(j as int));
                assert(spec_words(t) == seq![word@] + spec_words(s.skip(j as int)));
                assert(wsdone + spec_words(t) =~= wsdone.push(word@) + spec_words(
                    s.skip(j as int),
                ));
            }
            let is_bogus = alnum && blen >= 26 && blen <= 35;
            let is_bogus = is_bogus && word[0] == '7';
            proof {
                assert(word@[0] == s[i as int]);
                assert(forall|k: int| 0 <= k < word@.len() ==> word@[k] == s[i + k]);
                if alnum {
                    assert forall|k: int| 0 <= k < word@.len() implies unicode_alnum(
                        #[trigger] word@[k],
                    ) by {
                        assert(word@[k] == s[i + k]);
                    }
                } else {
                    let k0 = choose|k: int| i <= k < j && !unicode_alnum(#[trigger] s[k]);
                    assert(word@[k0 - i] == s[k0]);
                    assert(!spec_is_bogus(word@));
                }
                assert((blen >= 26 && blen <= 35) == (utf8_len(word@) >= 26 && utf8_len(word@)
                    <= 35));
                assert(is_bogus == spec_is_bogus(word@));
                lemma_join_snoc(spec_rewritten(wsdone), spec_rw_word(word@));
                assert(spec_rewritten(wsdone.push(word@)) =~= spec_rewritten(wsdone).push(
                    spec_rw_word(word@),
                ));
                assert(spec_rewritten(wsdone).len() == wsdone.len());
            }
            let ghost out_base = out@;
            if !first {
                out.push(' ');
                proof {
                    assert(out@ =~= out_base + seq![' ']);
                }
            }
            let ghost out_sep = out@;
            if is_bogus {
                let tony = "7YWHMfk9JZe0LM0g1ZauHuiSxhI";
                let tn = tony.unicode_len();
                let mut k: usize = 0;
                while k < tn
                    invariant
                        k <= tn,
                        tn == tony@.len(),
                        tony@ == "7YWHMfk9JZe0LM0g1ZauHuiSxhI"@,
                        out@ =~= out_sep + tony@.take(k as int),
                    decreases tn - k,
                {
                    out.push(tony.get_char(k));
                    k += 1;
                }
                proof {
                    assert(tony@.take(tn as int) =~= tony@);
                    assert(out@ =~= out_sep + spec_rw_word(word@));
                }
            } else {
                let mut word = word;
                let ghost wv = word@;
                out.append(&mut word);
                proof {
                    assert(out@ =~= out_sep + spec_rw_word(wv));
                }
            }
            proof {
                if wsdone.len() == 0 {
                    assert(out_sep =~= Seq::<char>::empty());
                    assert(out@ =~= spec_rw_word(word@));
                    assert(out@ == spec_join(
                        spec_rewritten(wsdone).push(spec_rw_word(word@)),
                    ));
                } else {
                    assert(out_sep =~= spec_join(spec_rewritten(wsdone)) + seq![' ']);
                    assert(out@ =~= spec_join(spec_rewritten(wsdone)) + seq![' '] + spec_rw_word(
                        word@,
                    ));
                    assert(out@ == spec_join(
                        spec_rewritten(wsdone).push(spec_rw_word(word@)),
                    ));
                }
                wsdone = wsdone.push(word@);
            }
            first = false;
            i = j;
        }
    }
    proof {
        assert(s.skip(n as int) =~= Seq::<char>::empty());
        assert(spec_words(Seq::<char>::empty()) =~= Seq::<Seq<char>>::empty());
        assert(wsdone + Seq::<Seq<char>>::empty() =~= wsdone);
        assert(spec_words(s) == wsdone);
    }
    string_from_chars(&out)
}

} // verus!
