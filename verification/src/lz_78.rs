//! The dictionary codec. A token `(pointer, literal)` stands for the phrase
//! that the dictionary holds under `pointer`, followed by one literal byte.
//! Both sides build the same dictionary as they go: entry 0 is the empty
//! phrase, and the phrase of the `k`-th token becomes entry `k`.

use crate::error::DecodeError;
use std::collections::BTreeMap;
use vstd::prelude::*;

verus! {

/// A token: the dictionary entry that the phrase starts with, and the literal
/// byte that ends it.
pub type Pair = (u64, u8);

/// The dictionary before any token: the empty phrase alone.
pub open spec fn lz78_initial() -> Seq<Seq<u8>> {
    seq![Seq::<u8>::empty()]
}

/// Dictionary and output after the first `n` tokens of `toks`, or the error of
/// the first of them whose pointer names no entry.
pub open spec fn lz78_decode_upto(toks: Seq<Pair>, n: nat) -> Result<
    (Seq<Seq<u8>>, Seq<u8>),
    DecodeError,
>
    decreases n,
{
    if n == 0 {
        Ok((lz78_initial(), Seq::<u8>::empty()))
    } else {
        match lz78_decode_upto(toks, (n - 1) as nat) {
            Ok((dict, out)) => {
                let tok = toks[n - 1];
                if tok.0 < dict.len() {
                    let word = dict[tok.0 as int].push(tok.1);
                    Ok((dict.push(word), out + word))
                } else {
                    Err(DecodeError::InvalidDictionaryReference)
                }
            },
            Err(e) => Err(e),
        }
    }
}

/// The bytes that `toks` stand for.
pub open spec fn lz78_decode(toks: Seq<Pair>) -> Result<Seq<u8>, DecodeError> {
    match lz78_decode_upto(toks, toks.len()) {
        Ok((dict, out)) => Ok(out),
        Err(e) => Err(e),
    }
}

/// The tokens for the bytes of `x` from position `i`, where `phrases` is the
/// dictionary so far and `word` the known phrase that the bytes just before `i`
/// spell. A byte that extends `word` to a known phrase is taken into `word`. A
/// byte that extends it to an unknown phrase ends a token: the pointer is the
/// entry of `word`, the new phrase enters the dictionary, and `word` starts
/// again empty. At the end of `x`, a `word` that is left gives one more token,
/// made of the entry of all but its last byte and of that byte.
pub open spec fn lz78_encode_from(
    x: Seq<u8>,
    i: int,
    phrases: Seq<Seq<u8>>,
    word: Seq<u8>,
) -> Seq<Pair>
    decreases x.len() - i,
{
    if i >= x.len() {
        if word.len() == 0 {
            Seq::<Pair>::empty()
        } else {
            seq![(phrases.index_of(word.drop_last()) as u64, word.last())]
        }
    } else {
        let longer = word.push(x[i]);
        if phrases.contains(longer) {
            lz78_encode_from(x, i + 1, phrases, longer)
        } else {
            seq![(phrases.index_of(word) as u64, x[i])] + lz78_encode_from(
                x,
                i + 1,
                phrases.push(longer),
                Seq::<u8>::empty(),
            )
        }
    }
}

/// The tokens that encode `x`.
pub open spec fn lz78_encode(x: Seq<u8>) -> Seq<Pair> {
    lz78_encode_from(x, 0, lz78_initial(), Seq::<u8>::empty())
}

/// Content that is not used up, or a phrase that is left, gives at least one
/// token.
pub proof fn lemma_lz78_encode_nonempty(x: Seq<u8>, i: int, phrases: Seq<Seq<u8>>, word: Seq<u8>)
    requires
        0 <= i <= x.len(),
        i < x.len() || word.len() > 0,
    ensures
        lz78_encode_from(x, i, phrases, word).len() > 0,
    decreases x.len() - i,
{
    if i < x.len() {
        let longer = word.push(x[i]);
        if phrases.contains(longer) {
            lemma_lz78_encode_nonempty(x, i + 1, phrases, longer);
        }
    }
}

/// A dictionary as both sides keep it: it starts with the empty phrase, holds
/// no phrase twice, has fewer than 2^64 entries, and with each phrase it holds
/// the phrase without its last byte.
pub open spec fn is_dictionary(phrases: Seq<Seq<u8>>) -> bool {
    &&& phrases.len() > 0
    &&& phrases.len() <= u64::MAX
    &&& phrases[0] == Seq::<u8>::empty()
    &&& phrases.no_duplicates()
    &&& forall|k: int|
        0 < k < phrases.len() ==> phrases.contains((#[trigger] phrases[k]).drop_last())
            && phrases[k].len() > 0
}

/// In a dictionary the entry of a phrase is the one place where it stands.
pub proof fn lemma_index_of_entry(phrases: Seq<Seq<u8>>, k: int)
    requires
        phrases.no_duplicates(),
        0 <= k < phrases.len(),
    ensures
        phrases.index_of(phrases[k]) == k,
{
    let j = phrases.index_of(phrases[k]);
    assert(0 <= j < phrases.len() && phrases[j] == phrases[k]);
}

/// Decoding a longer run of tokens that ends in an error gives that error for
/// every longer run.
pub proof fn lemma_lz78_error_stays(toks: Seq<Pair>, n: nat, m: nat)
    requires
        n <= m,
        lz78_decode_upto(toks, n) is Err,
    ensures
        lz78_decode_upto(toks, m) == lz78_decode_upto(toks, n),
    decreases m,
{
    if n < m {
        lemma_lz78_error_stays(toks, n, (m - 1) as nat);
    }
}

/// Decoding depends only on the tokens that are decoded.
pub proof fn lemma_lz78_decode_prefix(a: Seq<Pair>, b: Seq<Pair>, n: nat)
    requires
        n <= a.len(),
        n <= b.len(),
        a.take(n as int) == b.take(n as int),
    ensures
        lz78_decode_upto(a, n) == lz78_decode_upto(b, n),
    decreases n,
{
    if n > 0 {
        assert(a.take(n - 1) =~= a.take(n as int).take(n - 1));
        assert(b.take(n - 1) =~= b.take(n as int).take(n - 1));
        lemma_lz78_decode_prefix(a, b, (n - 1) as nat);
        assert(a[n - 1] == a.take(n as int)[n - 1]);
        assert(b[n - 1] == b.take(n as int)[n - 1]);
    }
}

/// The decoder, having reached dictionary `phrases` and output `out` after the
/// tokens `done`, goes on through the tokens that encode the rest of `x` to the
/// output `out + word + x[i..]`.
#[verifier::rlimit(40)]
pub proof fn lemma_lz78_decode_of_encode(
    x: Seq<u8>,
    i: int,
    phrases: Seq<Seq<u8>>,
    word: Seq<u8>,
    done: Seq<Pair>,
    out: Seq<u8>,
)
    requires
        0 <= i <= x.len(),
        is_dictionary(phrases),
        phrases.len() + (x.len() - i) <= u64::MAX,
        phrases.contains(word),
        lz78_decode_upto(done, done.len()) == Ok::<(Seq<Seq<u8>>, Seq<u8>), DecodeError>(
            (phrases, out),
        ),
    ensures
        lz78_decode(done + lz78_encode_from(x, i, phrases, word)) == Ok::<Seq<u8>, DecodeError>(
            out + word + x.skip(i),
        ),
    decreases x.len() - i,
{
    let rest = lz78_encode_from(x, i, phrases, word);
    let all = done + rest;
    let n = done.len();
    assert(all.take(n as int) =~= done);
    assert(done.take(n as int) =~= done);
    lemma_lz78_decode_prefix(all, done, n);
    if i >= x.len() {
        assert(x.skip(i) =~= Seq::<u8>::empty());
        if word.len() == 0 {
            assert(all =~= done);
            assert(out + word + x.skip(i) =~= out);
        } else {
            let k = phrases.index_of(word);
            assert(phrases[k] == word);
            assert(k > 0);
            let stem = word.drop_last();
            assert(phrases.contains(stem));
            let j = phrases.index_of(stem);
            assert(phrases[j] == stem);
            assert(all.len() == n + 1);
            assert(all[n as int] == (j as u64, word.last()));
            assert(stem.push(word.last()) =~= word);
            assert(lz78_decode_upto(all, n + 1) == Ok::<(Seq<Seq<u8>>, Seq<u8>), DecodeError>(
                (phrases.push(word), out + word),
            ));
            assert(out + word + x.skip(i) =~= out + word);
        }
    } else {
        let longer = word.push(x[i]);
        assert(word + x.skip(i) =~= longer + x.skip(i + 1));
        assert(out + word + x.skip(i) =~= out + longer + x.skip(i + 1));
        if phrases.contains(longer) {
            lemma_lz78_decode_of_encode(x, i + 1, phrases, longer, done, out);
        } else {
            let k = phrases.index_of(word);
            assert(phrases[k] == word);
            let tok = (k as u64, x[i]);
            let grown = phrases.push(longer);
            let tail = lz78_encode_from(x, i + 1, grown, Seq::<u8>::empty());
            let more = done.push(tok);
            assert(all =~= more + tail);
            assert(more.take(n as int) =~= done);
            lemma_lz78_decode_prefix(more, done, n);
            assert(lz78_decode_upto(more, n + 1) == Ok::<(Seq<Seq<u8>>, Seq<u8>), DecodeError>(
                (grown, out + longer),
            ));
            assert(is_dictionary(grown)) by {
                assert(grown[0] == phrases[0]);
                assert forall|a: int, b: int|
                    0 <= a < grown.len() && 0 <= b < grown.len() && a != b implies grown[a]
                    != grown[b] by {
                    if a == phrases.len() {
                        assert(phrases[b] != longer);
                    } else if b == phrases.len() {
                        assert(phrases[a] != longer);
                    }
                }
                assert forall|a: int| 0 < a < grown.len() implies grown.contains(
                    (#[trigger] grown[a]).drop_last(),
                ) && grown[a].len() > 0 by {
                    if a == phrases.len() {
                        assert(longer.drop_last() =~= word);
                        assert(grown[k] == word);
                    } else {
                        let stem = phrases[a].drop_last();
                        assert(phrases.contains(stem));
                        let j = phrases.index_of(stem);
                        assert(grown[j] == stem);
                    }
                }
            }
            assert(grown[0] == Seq::<u8>::empty());
            lemma_lz78_decode_of_encode(
                x,
                i + 1,
                grown,
                Seq::<u8>::empty(),
                more,
                out + longer,
            );
            assert(out + longer + Seq::<u8>::empty() + x.skip(i + 1) =~= out + longer + x.skip(
                i + 1,
            ));
        }
    }
}

/// Encoding loses nothing: the tokens that encode `x` decode to `x`.
pub proof fn lemma_lz78_round_trip(x: Seq<u8>)
    requires
        x.len() < u64::MAX,
    ensures
        lz78_decode(lz78_encode(x)) == Ok::<Seq<u8>, DecodeError>(x),
{
    let empty = Seq::<u8>::empty();
    assert(lz78_initial()[0] == empty);
    assert(is_dictionary(lz78_initial()));
    lemma_lz78_decode_of_encode(x, 0, lz78_initial(), empty, Seq::<Pair>::empty(), empty);
    assert(Seq::<Pair>::empty() + lz78_encode(x) =~= lz78_encode(x));
    assert(empty + empty + x.skip(0) =~= x);
}

/// What the encoder's lookup table says of the dictionary `phrases`: under the
/// key `(parent, byte)` it holds the entry of the phrase that is the phrase of
/// `parent` followed by `byte`, for every phrase but the empty one, and nothing
/// else. `parent_of` and `last_of` name, for each entry, the key it stands
/// under.
pub open spec fn table_matches(
    table: Map<(u64, u8), u64>,
    phrases: Seq<Seq<u8>>,
    parent_of: Seq<int>,
    last_of: Seq<u8>,
) -> bool {
    &&& parent_of.len() == phrases.len()
    &&& last_of.len() == phrases.len()
    &&& forall|k: int|
        0 < k < phrases.len() ==> {
            &&& 0 <= #[trigger] parent_of[k] < phrases.len()
            &&& phrases[k] == phrases[parent_of[k]].push(last_of[k])
            &&& table.contains_key((parent_of[k] as u64, last_of[k]))
            &&& table[(parent_of[k] as u64, last_of[k])] == k
        }
    &&& forall|key: (u64, u8)| #[trigger]
        table.contains_key(key) ==> {
            &&& 0 < table[key] < phrases.len()
            &&& key.0 < phrases.len()
            &&& phrases[table[key] as int] == phrases[key.0 as int].push(key.1)
        }
}

/// Encodes `input` as dictionary tokens.
#[verifier::rlimit(40)]
pub fn lz78_coding(input: &[u8]) -> (toks: Vec<Pair>)
    ensures
        toks@ == lz78_encode(input@),
{
    let mut dictionnary: BTreeMap<(u64, u8), u64> = BTreeMap::new();
    let mut output: Vec<Pair> = Vec::new();
    let ghost x = input@;
    let ghost mut phrases = lz78_initial();
    let ghost mut parent_of: Seq<int> = seq![0int];
    let ghost mut last_of: Seq<u8> = seq![0u8];
    let ghost mut word = Seq::<u8>::empty();
    let mut count: u64 = 0;
    let mut last_pointer: u64 = 0;
    let mut stem_pointer: u64 = 0;
    let mut i: usize = 0;
    proof {
        assert(phrases[0] == Seq::<u8>::empty());
        assert(output@ + lz78_encode_from(x, 0, phrases, word) =~= lz78_encode(x));
    }
    while i < input.len()
        invariant
            x == input@,
            i <= x.len(),
            phrases.len() > 0,
            phrases[0] == Seq::<u8>::empty(),
            phrases.no_duplicates(),
            phrases.len() == count + 1,
            count <= i,
            forall|k: int| 0 < k < phrases.len() ==> (#[trigger] phrases[k]).len() > 0,
            table_matches(dictionnary@, phrases, parent_of, last_of),
            last_pointer < phrases.len(),
            phrases[last_pointer as int] == word,
            word.len() <= i,
            word.len() > 0 ==> stem_pointer < phrases.len() && phrases[stem_pointer as int]
                == word.drop_last() && word.last() == x[i - 1],
            output@ + lz78_encode_from(x, i as int, phrases, word) == lz78_encode(x),
        decreases x.len() - i,
    {
        let item = input[i];
        let ghost longer = word.push(item);
        match dictionnary.get(&(last_pointer, item)) {
            Some(pointer) => {
                proof {
                    let k = *pointer as int;
                    assert(dictionnary@.contains_key((last_pointer, item)));
                    assert(phrases[k] == longer);
                    assert(longer.drop_last() =~= word);
                }
                stem_pointer = last_pointer;
                last_pointer = *pointer;
                proof {
                    word = longer;
                }
            },
            None => {
                proof {
                    assert(!dictionnary@.contains_key((last_pointer, item)));
                    if phrases.contains(longer) {
                        let k = phrases.index_of(longer);
                        assert(phrases[k] == longer);
                        assert(k > 0);
                        let parent = parent_of[k];
                        assert(phrases[parent].push(last_of[k]) == longer);
                        assert(phrases[parent] =~= longer.drop_last());
                        assert(longer.drop_last() =~= word);
                        assert(last_of[k] == longer.last());
                        assert(parent == last_pointer);
                        assert(false);
                    }
                    lemma_index_of_entry(phrases, last_pointer as int);
                }
                let index: u64 = count + 1;
                dictionnary.insert((last_pointer, item), index);
                output.push((last_pointer, item));
                proof {
                    let before = output@.drop_last();
                    let grown = phrases.push(longer);
                    assert(output@ + lz78_encode_from(x, i + 1, grown, Seq::<u8>::empty())
                        =~= before + (seq![(last_pointer, item)] + lz78_encode_from(
                        x,
                        i + 1,
                        grown,
                        Seq::<u8>::empty(),
                    )));
                    assert forall|a: int, b: int|
                        0 <= a < grown.len() && 0 <= b < grown.len() && a != b implies grown[a]
                        != grown[b] by {
                        if a == phrases.len() {
                            assert(phrases[b] != longer);
                        } else if b == phrases.len() {
                            assert(phrases[a] != longer);
                        }
                    }
                    let grown_parent = parent_of.push(last_pointer as int);
                    let grown_last = last_of.push(item);
                    assert forall|k: int| 0 < k < grown.len() implies {
                        &&& 0 <= #[trigger] grown_parent[k] < grown.len()
                        &&& grown[k] == grown[grown_parent[k]].push(grown_last[k])
                        &&& dictionnary@.contains_key((grown_parent[k] as u64, grown_last[k]))
                        &&& dictionnary@[(grown_parent[k] as u64, grown_last[k])] == k
                    } by {
                        if k < phrases.len() {
                            assert(0 <= parent_of[k] < phrases.len());
                        }
                    }
                    phrases = grown;
                    parent_of = grown_parent;
                    last_of = grown_last;
                    word = Seq::<u8>::empty();
                }
                count = index;
                last_pointer = 0;
            },
        }
        i = i + 1;
    }
    proof {
        if word.len() > 0 {
            lemma_index_of_entry(phrases, stem_pointer as int);
        }
    }
    if last_pointer != 0 {
        let last_char = input[i - 1];
        output.push((stem_pointer, last_char));
    }
    assert(output@ =~= lz78_encode(x));
    output
}

/// Decodes dictionary tokens. A token whose pointer names no entry yet is an
/// error.
pub fn lz78_decoding(tokens: &[Pair]) -> (bytes: Result<Vec<u8>, DecodeError>)
    ensures
        match bytes {
            Ok(v) => lz78_decode(tokens@) == Ok::<Seq<u8>, DecodeError>(v@),
            Err(e) => lz78_decode(tokens@) == Err::<Seq<u8>, DecodeError>(e),
        },
{
    let mut dictionnary: BTreeMap<u64, Vec<u8>> = BTreeMap::new();
    dictionnary.insert(0, Vec::new());
    let mut output: Vec<u8> = Vec::new();
    let ghost toks = tokens@;
    let ghost mut phrases = lz78_initial();
    let mut n: usize = 0;
    while n < tokens.len()
        invariant
            toks == tokens@,
            n <= toks.len(),
            phrases.len() == n + 1,
            lz78_decode_upto(toks, n as nat) == Ok::<(Seq<Seq<u8>>, Seq<u8>), DecodeError>(
                (phrases, output@),
            ),
            forall|k: u64|
                dictionnary@.contains_key(k) <==> k < phrases.len(),
            forall|k: u64|
                k < phrases.len() ==> (#[trigger] dictionnary@[k])@ == phrases[k as int],
        decreases toks.len() - n,
    {
        let (pointer, character) = tokens[n];
        let mut word: Vec<u8> = match dictionnary.get(&pointer) {
            Some(tmp_word) => {
                assert(dictionnary@.contains_key(pointer));
                let copy = tmp_word.clone();
                assert(copy@ =~= tmp_word@);
                copy
            },
            None => {
                proof {
                    assert(!dictionnary@.contains_key(pointer));
                    assert(lz78_decode_upto(toks, (n + 1) as nat) is Err);
                    lemma_lz78_error_stays(toks, (n + 1) as nat, toks.len());
                }
                return Err(DecodeError::InvalidDictionaryReference);
            },
        };
        word.push(character);
        let index: u64 = (n + 1) as u64;
        let stored = word.clone();
        assert(stored@ =~= word@);
        dictionnary.insert(index, stored);
        proof {
            phrases = phrases.push(word@);
        }
        output.append(&mut word);
        n = n + 1;
    }
    Ok(output)
}

} // verus!
