use vstd::prelude::*;
use crate::embedder::EncodingError;
use crate::sentences::{
    chars_of, cleaned, sentences_of, split_sentences, string_of, strings_of, trim_bounds, trimmed,
};

verus! {

/// A sentence together with the number of tokens that the vocabulary model counts in
/// it.
#[derive(Debug)]
pub struct Sentence {
    pub text: String,
    pub tokens: usize,
}

/// A sentence as a mathematical value.
pub struct Piece {
    pub text: Seq<char>,
    pub tokens: nat,
}

impl View for Sentence {
    type V = Piece;

    open spec fn view(&self) -> Piece {
        Piece { text: self.text@, tokens: self.tokens as nat }
    }
}

/// The sentences of a vector as mathematical values.
pub open spec fn pieces_of(v: Seq<Sentence>) -> Seq<Piece> {
    Seq::new(v.len(), |i: int| v[i]@)
}

/// The sentences that count: those with at least one token, in their order.
pub open spec fn counted(pieces: Seq<Piece>) -> Seq<Piece>
    decreases pieces.len(),
{
    if pieces.len() == 0 {
        Seq::empty()
    } else if pieces[0].tokens == 0 {
        counted(pieces.drop_first())
    } else {
        seq![pieces[0]] + counted(pieces.drop_first())
    }
}

/// What a run of sentences weighs against the budget: the tokens of its sentences.
pub open spec fn load(group: Seq<Piece>) -> nat
    decreases group.len(),
{
    if group.len() == 0 {
        0
    } else {
        load(group.drop_last()) + group.last().tokens
    }
}

/// How many of the leading sentences of `rest` still go into a chunk that weighs
/// `running` so far: a sentence goes in as long as its tokens, added to the weight,
/// stay within the budget.
pub open spec fn run_length(rest: Seq<Piece>, running: nat, max: nat) -> nat
    decreases rest.len(),
{
    if rest.len() == 0 || running + rest[0].tokens > max {
        0
    } else {
        1 + run_length(rest.drop_first(), running + rest[0].tokens, max)
    }
}

/// The number of sentences in the first chunk: the first sentence, whatever its
/// size, and those after it that still go in.
pub open spec fn first_chunk_len(pieces: Seq<Piece>, max: nat) -> nat
    recommends
        pieces.len() > 0,
{
    1 + run_length(pieces.drop_first(), pieces[0].tokens, max)
}

/// The sentences dealt into chunks, in order: the first chunk takes as many
/// sentences as go in, and the rest is dealt in the same way.
pub open spec fn grouped(pieces: Seq<Piece>, max: nat) -> Seq<Seq<Piece>>
    decreases pieces.len(),
{
    let k = first_chunk_len(pieces, max);
    if pieces.len() == 0 {
        Seq::empty()
    } else if k >= pieces.len() {
        seq![pieces]
    } else {
        seq![pieces.take(k as int)] + grouped(pieces.skip(k as int), max)
    }
}

/// The text of a chunk: each sentence trimmed and closed by a period, with a space
/// between one sentence and the next.
pub open spec fn rendered(group: Seq<Piece>) -> Seq<char>
    decreases group.len(),
{
    if group.len() == 0 {
        Seq::empty()
    } else if group.len() == 1 {
        trimmed(group[0].text).push('.')
    } else {
        rendered(group.drop_last()) + seq![' '] + trimmed(group.last().text).push('.')
    }
}

/// The texts of a sequence of chunks.
pub open spec fn rendered_all(groups: Seq<Seq<Piece>>) -> Seq<Seq<char>> {
    Seq::new(groups.len(), |j: int| rendered(groups[j]))
}

/// The chunks of a sequence of sentences under a budget of `max` tokens: the
/// sentences without tokens are left out, the others are dealt into chunks, and each
/// chunk is written out.
pub open spec fn chunks_of(pieces: Seq<Piece>, max: nat) -> Seq<Seq<char>> {
    rendered_all(grouped(counted(pieces), max))
}

proof fn lemma_run_length_bound(rest: Seq<Piece>, running: nat, max: nat)
    ensures
        run_length(rest, running, max) <= rest.len(),
    decreases rest.len(),
{
    if !(rest.len() == 0 || running + rest[0].tokens > max) {
        lemma_run_length_bound(rest.drop_first(), running + rest[0].tokens, max);
    }
}

proof fn lemma_grouped_unfold(pieces: Seq<Piece>, max: nat)
    requires
        pieces.len() > 0,
    ensures
        first_chunk_len(pieces, max) <= pieces.len(),
        grouped(pieces, max) == seq![pieces.take(first_chunk_len(pieces, max) as int)] + grouped(
            pieces.skip(first_chunk_len(pieces, max) as int),
            max,
        ),
{
    let k = first_chunk_len(pieces, max);
    lemma_run_length_bound(pieces.drop_first(), pieces[0].tokens, max);
    if k >= pieces.len() {
        assert(pieces.take(k as int) =~= pieces);
        assert(pieces.skip(k as int) =~= Seq::<Piece>::empty());
        assert(grouped(pieces.skip(k as int), max) =~= Seq::<Seq<Piece>>::empty());
        assert(seq![pieces] =~= seq![pieces] + Seq::<Seq<Piece>>::empty());
    }
}

/// The chunks still to come when `open` is the chunk being filled and `rest` are the
/// sentences not yet dealt.
spec fn resumed(open: Seq<Piece>, rest: Seq<Piece>, max: nat) -> Seq<Seq<Piece>> {
    if open.len() == 0 {
        grouped(rest, max)
    } else {
        let r = run_length(rest, load(open), max);
        seq![open + rest.take(r as int)] + grouped(rest.skip(r as int), max)
    }
}

proof fn lemma_start_chunk(rest: Seq<Piece>, max: nat)
    requires
        rest.len() > 0,
    ensures
        grouped(rest, max) == resumed(seq![rest[0]], rest.drop_first(), max),
{
    lemma_grouped_unfold(rest, max);
    let open = seq![rest[0]];
    let tail = rest.drop_first();
    assert(open.drop_last() =~= Seq::<Piece>::empty());
    assert(load(Seq::<Piece>::empty()) == 0);
    assert(load(open) == rest[0].tokens);
    let r = run_length(tail, load(open), max);
    lemma_run_length_bound(tail, load(open), max);
    assert(rest.take(1 + r as int) =~= open + tail.take(r as int));
    assert(rest.skip(1 + r as int) =~= tail.skip(r as int));
}

proof fn lemma_extend_chunk(open: Seq<Piece>, rest: Seq<Piece>, max: nat)
    requires
        open.len() > 0,
        rest.len() > 0,
        load(open) + rest[0].tokens <= max,
    ensures
        resumed(open, rest, max) == resumed(open.push(rest[0]), rest.drop_first(), max),
{
    let tail = rest.drop_first();
    let wider = open.push(rest[0]);
    assert(wider.drop_last() =~= open);
    assert(load(wider) == load(open) + rest[0].tokens);
    let r = run_length(tail, load(wider), max);
    lemma_run_length_bound(tail, load(wider), max);
    assert(run_length(rest, load(open), max) == 1 + r);
    assert(open + rest.take(1 + r as int) =~= wider + tail.take(r as int));
    assert(rest.skip(1 + r as int) =~= tail.skip(r as int));
}

proof fn lemma_close_chunk(open: Seq<Piece>, rest: Seq<Piece>, max: nat)
    requires
        open.len() > 0,
        rest.len() == 0 || load(open) + rest[0].tokens > max,
    ensures
        resumed(open, rest, max) == seq![open] + grouped(rest, max),
{
    assert(run_length(rest, load(open), max) == 0);
    assert(open + rest.take(0) =~= open);
    assert(rest.skip(0) =~= rest);
}

proof fn lemma_rendered_push(open: Seq<Piece>, piece: Piece)
    ensures
        rendered(open.push(piece)) == if open.len() == 0 {
            trimmed(piece.text).push('.')
        } else {
            rendered(open) + seq![' '] + trimmed(piece.text).push('.')
        },
        open.len() > 0 ==> rendered(open).len() > 0,
    decreases open.len(),
{
    assert(open.push(piece).drop_last() =~= open);
    assert(open.push(piece).last() == piece);
    if open.len() > 1 {
        lemma_rendered_push(open.drop_last(), open.last());
        assert(open.drop_last().push(open.last()) =~= open);
    }
}

/// Appends one sentence to the text of the chunk being filled.
fn append_sentence(current: &mut Vec<char>, text: &str, Ghost(open): Ghost<Seq<Piece>>, Ghost(
    piece,
): Ghost<Piece>)
    requires
        old(current)@ == rendered(open),
        piece.text == text@,
    ensures
        final(current)@ == rendered(open.push(piece)),
{
    proof {
        lemma_rendered_push(open, piece);
    }
    let chars = chars_of(text);
    let (lo, hi) = trim_bounds(&chars);
    if current.len() > 0 {
        current.push(' ');
    }
    let ghost base = current@;
    let mut at: usize = lo;
    assert(chars@.subrange(lo as int, lo as int) =~= Seq::<char>::empty());
    assert(base + Seq::<char>::empty() =~= base);
    while at < hi
        invariant
            lo <= at <= hi <= chars@.len(),
            current@ == base + chars@.subrange(lo as int, at as int),
        decreases hi - at,
    {
        current.push(chars[at]);
        assert(chars@.subrange(lo as int, at as int + 1) =~= chars@.subrange(
            lo as int,
            at as int,
        ).push(chars@[at as int]));
        assert(base + chars@.subrange(lo as int, at as int + 1) =~= (base + chars@.subrange(
            lo as int,
            at as int,
        )).push(chars@[at as int]));
        at += 1;
    }
    current.push('.');
    proof {
        assert(current@ =~= base + trimmed(piece.text).push('.'));
        if open.len() == 0 {
            assert(base =~= Seq::<char>::empty());
            assert(base + trimmed(piece.text).push('.') =~= trimmed(piece.text).push('.'));
        } else {
            assert(base =~= rendered(open) + seq![' ']);
        }
    }
}

/// Packs sentences into chunks under a budget of `max_tokens` tokens.
///
/// A sentence without tokens is skipped. A sentence goes into the chunk being filled
/// if its tokens, added to what the chunk weighs, stay within the budget; if not, the
/// chunk is closed and the sentence starts the next one. A sentence larger than the
/// budget therefore stands in a chunk of its own. The last chunk is closed at the
/// end, so no sentence with tokens is lost.
pub fn pack_sentences(sentences: &Vec<Sentence>, max_tokens: usize) -> (chunks: Vec<String>)
    ensures
        strings_of(chunks@) == chunks_of(pieces_of(sentences@), max_tokens as nat),
{
    let n: usize = sentences.len();
    let ghost all = pieces_of(sentences@);
    let ghost max = max_tokens as nat;
    let mut chunks: Vec<String> = Vec::new();
    let mut current: Vec<char> = Vec::new();
    let mut running: u128 = 0;
    let ghost mut done: Seq<Seq<Piece>> = Seq::empty();
    let ghost mut open: Seq<Piece> = Seq::empty();
    let mut i: usize = 0;
    proof {
        assert(all.skip(0) =~= all);
        assert(strings_of(chunks@) =~= rendered_all(done));
        assert(done + resumed(open, counted(all), max) =~= grouped(counted(all), max));
    }
    while i < n
        invariant
            n == sentences@.len(),
            all == pieces_of(sentences@),
            max == max_tokens as nat,
            i <= n,
            strings_of(chunks@) == rendered_all(done),
            current@ == rendered(open),
            running == load(open),
            running <= usize::MAX,
            grouped(counted(all), max) == done + resumed(open, counted(all.skip(i as int)), max),
        decreases n - i,
    {
        let sentence = &sentences[i];
        let ghost piece = all[i as int];
        let ghost rest = counted(all.skip(i as int));
        let ghost later = counted(all.skip(i as int + 1));
        proof {
            assert(all.skip(i as int).drop_first() =~= all.skip(i as int + 1));
            assert(all.skip(i as int)[0] == piece);
            assert(piece == sentence@);
        }
        if sentence.tokens != 0 {
            proof {
                assert(rest == seq![piece] + later);
                assert(rest.drop_first() =~= later);
                assert(rest[0] == piece);
            }
            if current.len() > 0 && running + (sentence.tokens as u128) > (max_tokens as u128) {
                proof {
                    lemma_rendered_push(open, piece);
                    lemma_close_chunk(open, rest, max);
                    assert(done + (seq![open] + grouped(rest, max)) =~= done.push(open) + grouped(
                        rest,
                        max,
                    ));
                }
                let closed = string_of(&current);
                let ghost before = strings_of(chunks@);
                chunks.push(closed);
                proof {
                    assert(strings_of(chunks@) =~= before.push(rendered(open)));
                    assert(rendered_all(done.push(open)) =~= rendered_all(done).push(
                        rendered(open),
                    ));
                    done = done.push(open);
                    open = Seq::empty();
                }
                current = Vec::new();
                running = 0;
            }
            proof {
                lemma_rendered_push(open, piece);
                if open.len() == 0 {
                    lemma_start_chunk(rest, max);
                    assert(seq![piece] =~= open.push(piece));
                    assert(load(open) == 0);
                } else {
                    lemma_extend_chunk(open, rest, max);
                }
                assert(open.push(piece).drop_last() =~= open);
            }
            append_sentence(&mut current, sentence.text.as_str(), Ghost(open), Ghost(piece));
            running = running + (sentence.tokens as u128);
            proof {
                open = open.push(piece);
            }
        } else {
            assert(rest == later);
        }
        i += 1;
    }
    proof {
        assert(all.skip(n as int) =~= Seq::<Piece>::empty());
        assert(counted(Seq::<Piece>::empty()) =~= Seq::<Piece>::empty());
    }
    if current.len() > 0 {
        proof {
            lemma_rendered_push(open, arbitrary());
            lemma_close_chunk(open, Seq::<Piece>::empty(), max);
            assert(done + (seq![open] + grouped(Seq::<Piece>::empty(), max)) =~= done.push(open));
        }
        let closed = string_of(&current);
        let ghost before = strings_of(chunks@);
        chunks.push(closed);
        assert(strings_of(chunks@) =~= before.push(rendered(open)));
        assert(rendered_all(done.push(open)) =~= rendered_all(done).push(rendered(open)));
    } else {
        proof {
            lemma_rendered_push(open, arbitrary());
            assert(open.len() == 0);
            assert(done + grouped(Seq::<Piece>::empty(), max) =~= done);
        }
    }
    chunks
}

/// The sentences `texts` with the token counts that the vocabulary model gave for
/// them, one outcome for each sentence.
pub open spec fn counted_pieces(texts: Seq<Seq<char>>, counts: Seq<Result<usize, String>>) -> Seq<
    Piece,
> {
    Seq::new(texts.len(), |i: int| Piece { text: texts[i], tokens: counts[i]->Ok_0 as nat })
}

/// Whether outcome `p` is the first refusal among the outcomes.
pub open spec fn is_first_refusal(counts: Seq<Result<usize, String>>, p: int) -> bool {
    &&& 0 <= p < counts.len()
    &&& counts[p] is Err
    &&& forall|j: int| 0 <= j < p ==> (#[trigger] counts[j]) is Ok
}

/// Splits a text into chunks of at most `max_tokens` tokens along its sentences.
///
/// Line breaks count as spaces, and a sentence ends at `.`, `?` or `!`. `counts`
/// holds, for each sentence of [`split_sentences`] in turn, the number of tokens that
/// the vocabulary model counts in it, or the model's refusal. The model should be
/// one that does not pad, since padding would count too. The chunks are those of the
/// sentences with these counts. The first refusal fails the whole text, and so does
/// a number of outcomes other than the number of sentences.
pub fn chunk_text(text: &str, counts: &Vec<Result<usize, String>>, max_tokens: usize) -> (r:
    Result<Vec<String>, EncodingError>)
    ensures
        ({
            let texts = sentences_of(cleaned(text@));
            match r {
                Ok(chunks) => {
                    &&& counts@.len() == texts.len()
                    &&& forall|j: int| 0 <= j < counts@.len() ==> (#[trigger] counts@[j]) is Ok
                    &&& strings_of(chunks@) == chunks_of(
                        counted_pieces(texts, counts@),
                        max_tokens as nat,
                    )
                },
                Err(EncodingError::CountMismatch { sentences, outcomes }) => {
                    &&& counts@.len() != texts.len()
                    &&& sentences == texts.len()
                    &&& outcomes == counts@.len()
                },
                Err(EncodingError::Refused { message }) => {
                    &&& counts@.len() == texts.len()
                    &&& exists|p: int| #[trigger]
                        is_first_refusal(counts@, p) && message@ == counts@[p]->Err_0@
                },
                Err(EncodingError::WrongWidth { .. }) => false,
            }
        }),
{
    let sentences = split_sentences(text);
    let ghost texts = sentences_of(cleaned(text@));
    let n: usize = sentences.len();
    if counts.len() != n {
        return Err(EncodingError::CountMismatch { sentences: n, outcomes: counts.len() });
    }
    let mut counted_sentences: Vec<Sentence> = Vec::new();
    let mut i: usize = 0;
    while i < n
        invariant
            texts == sentences_of(cleaned(text@)),
            texts.len() == n,
            n == sentences@.len(),
            n == counts@.len(),
            i <= n,
            counted_sentences@.len() == i,
            forall|j: int| 0 <= j < n ==> (#[trigger] sentences@[j])@ == texts[j],
            forall|j: int| 0 <= j < i ==> (#[trigger] counts@[j]) is Ok,
            forall|j: int|
                0 <= j < i ==> (#[trigger] counted_sentences@[j])@ == counted_pieces(
                    texts,
                    counts@,
                )[j],
        decreases n - i,
    {
        match &counts[i] {
            Err(refusal) => {
                assert(is_first_refusal(counts@, i as int));
                return Err(EncodingError::Refused { message: refusal.clone() });
            },
            Ok(tokens) => {
                counted_sentences.push(Sentence { text: sentences[i].clone(), tokens: *tokens });
            },
        }
        i += 1;
    }
    let chunks = pack_sentences(&counted_sentences, max_tokens);
    assert(pieces_of(counted_sentences@) =~= counted_pieces(texts, counts@));
    Ok(chunks)
}

proof fn lemma_load_front(piece: Piece, s: Seq<Piece>)
    ensures
        load(seq![piece] + s) == piece.tokens + load(s),
    decreases s.len(),
{
    let whole = seq![piece] + s;
    if s.len() == 0 {
        assert(whole.drop_last() =~= Seq::<Piece>::empty());
        assert(load(Seq::<Piece>::empty()) == 0);
    } else {
        assert(whole.drop_last() =~= seq![piece] + s.drop_last());
        lemma_load_front(piece, s.drop_last());
    }
}

proof fn lemma_run_budget(rest: Seq<Piece>, running: nat, max: nat)
    requires
        run_length(rest, running, max) >= 1,
    ensures
        running + load(rest.take(run_length(rest, running, max) as int)) <= max,
    decreases rest.len(),
{
    let tail = rest.drop_first();
    let next = running + rest[0].tokens;
    let further = run_length(tail, next, max);
    lemma_run_length_bound(tail, next, max);
    assert(rest.take(1 + further as int) =~= seq![rest[0]] + tail.take(further as int));
    lemma_load_front(rest[0], tail.take(further as int));
    if further >= 1 {
        lemma_run_budget(tail, next, max);
    } else {
        assert(tail.take(0) =~= Seq::<Piece>::empty());
        assert(load(Seq::<Piece>::empty()) == 0);
    }
}

/// Dealing sentences into chunks loses none and keeps their order: the chunks, put
/// end to end, are the sentences.
pub proof fn law_chunks_keep_every_sentence(pieces: Seq<Piece>, max: nat)
    ensures
        grouped(pieces, max).flatten() == pieces,
    decreases pieces.len(),
{
    if pieces.len() > 0 {
        lemma_grouped_unfold(pieces, max);
        let k = first_chunk_len(pieces, max) as int;
        law_chunks_keep_every_sentence(pieces.skip(k), max);
        let groups = grouped(pieces, max);
        assert(groups.first() == pieces.take(k));
        assert(groups.drop_first() =~= grouped(pieces.skip(k), max));
        assert(pieces.take(k) + pieces.skip(k) =~= pieces);
    } else {
        assert(grouped(pieces, max).flatten() =~= pieces);
    }
}

/// No chunk is empty, and a chunk of two or more sentences stays within the budget:
/// its tokens are at most `max`. Only a chunk of a single sentence can be larger,
/// when that sentence alone is.
pub proof fn law_chunks_within_budget(pieces: Seq<Piece>, max: nat, j: int)
    requires
        0 <= j < grouped(pieces, max).len(),
    ensures
        grouped(pieces, max)[j].len() >= 1,
        grouped(pieces, max)[j].len() >= 2 ==> load(grouped(pieces, max)[j]) <= max,
    decreases pieces.len(),
{
    lemma_grouped_unfold(pieces, max);
    let k = first_chunk_len(pieces, max);
    let tail = pieces.drop_first();
    if j == 0 {
        let further = run_length(tail, pieces[0].tokens, max);
        if further >= 1 {
            lemma_run_budget(tail, pieces[0].tokens, max);
            assert(pieces.take(k as int) =~= seq![pieces[0]] + tail.take(further as int));
            lemma_load_front(pieces[0], tail.take(further as int));
        }
    } else {
        assert(grouped(pieces, max)[j] == grouped(pieces.skip(k as int), max)[j - 1]);
        law_chunks_within_budget(pieces.skip(k as int), max, j - 1);
    }
}

proof fn lemma_run_stops_when_full(rest: Seq<Piece>, running: nat, max: nat)
    requires
        run_length(rest, running, max) < rest.len(),
    ensures
        running + load(rest.take(run_length(rest, running, max) as int)) + rest[run_length(
            rest,
            running,
            max,
        ) as int].tokens > max,
    decreases rest.len(),
{
    let r = run_length(rest, running, max);
    if r == 0 {
        assert(rest.take(0) =~= Seq::<Piece>::empty());
        assert(load(Seq::<Piece>::empty()) == 0);
    } else {
        let tail = rest.drop_first();
        let next = running + rest[0].tokens;
        let further = run_length(tail, next, max);
        lemma_run_stops_when_full(tail, next, max);
        assert(rest.take(1 + further as int) =~= seq![rest[0]] + tail.take(further as int));
        lemma_load_front(rest[0], tail.take(further as int));
        assert(rest[1 + further as int] == tail[further as int]);
    }
}

/// A chunk is closed only when the next sentence would not fit: the tokens of a
/// chunk and of the first sentence of the chunk after it are more than the budget.
pub proof fn law_chunks_close_only_when_full(pieces: Seq<Piece>, max: nat, j: int)
    requires
        0 <= j,
        j + 1 < grouped(pieces, max).len(),
    ensures
        grouped(pieces, max)[j + 1].len() >= 1,
        load(grouped(pieces, max)[j]) + grouped(pieces, max)[j + 1][0].tokens > max,
    decreases pieces.len(),
{
    lemma_grouped_unfold(pieces, max);
    let k = first_chunk_len(pieces, max) as int;
    let later = grouped(pieces.skip(k), max);
    assert(grouped(pieces, max)[j + 1] == later[j]);
    if j == 0 {
        assert(later.len() > 0);
        assert(k < pieces.len());
        lemma_grouped_unfold(pieces.skip(k), max);
        let tail = pieces.drop_first();
        let further = run_length(tail, pieces[0].tokens, max);
        lemma_run_stops_when_full(tail, pieces[0].tokens, max);
        assert(pieces.take(k) =~= seq![pieces[0]] + tail.take(further as int));
        lemma_load_front(pieces[0], tail.take(further as int));
        assert(later[0][0] == pieces.skip(k)[0]);
        assert(pieces.skip(k)[0] == tail[further as int]);
    } else {
        assert(grouped(pieces, max)[j] == later[j - 1]);
        law_chunks_close_only_when_full(pieces.skip(k), max, j - 1);
    }
}

/// Whether `cuts` deals `pieces` into consecutive groups within the budget: the cuts
/// start at zero, never fall and end at the number of pieces, and the pieces between
/// one cut and the next weigh at most `max`.
pub open spec fn is_split_within(pieces: Seq<Piece>, cuts: Seq<int>, max: nat) -> bool {
    &&& cuts.len() >= 1
    &&& cuts[0] == 0
    &&& cuts.last() == pieces.len()
    &&& forall|i: int| 0 <= i < cuts.len() - 1 ==> #[trigger] rises_at(cuts, i)
    &&& forall|i: int| 0 <= i < cuts.len() - 1 ==> #[trigger] within_at(pieces, cuts, i, max)
}

/// Whether cut `i` does not lie behind the cut after it.
pub open spec fn rises_at(cuts: Seq<int>, i: int) -> bool {
    cuts[i] <= cuts[i + 1]
}

/// Whether the pieces between cut `i` and the cut after it weigh at most `max`.
pub open spec fn within_at(pieces: Seq<Piece>, cuts: Seq<int>, i: int, max: nat) -> bool {
    load(pieces.subrange(cuts[i], cuts[i + 1])) <= max
}

proof fn lemma_load_concat(x: Seq<Piece>, y: Seq<Piece>)
    ensures
        load(x + y) == load(x) + load(y),
    decreases y.len(),
{
    if y.len() == 0 {
        assert(x + y =~= x);
    } else {
        assert((x + y).drop_last() =~= x + y.drop_last());
        lemma_load_concat(x, y.drop_last());
    }
}

proof fn lemma_run_takes_all_that_fit(rest: Seq<Piece>, running: nat, max: nat, m: int)
    requires
        0 <= m <= rest.len(),
        running + load(rest.take(m)) <= max,
    ensures
        m <= run_length(rest, running, max),
    decreases m,
{
    if m > 0 {
        let tail = rest.drop_first();
        assert(rest.take(m) =~= seq![rest[0]] + tail.take(m - 1));
        lemma_load_front(rest[0], tail.take(m - 1));
        lemma_run_takes_all_that_fit(tail, running + rest[0].tokens, max, m - 1);
    }
}

proof fn lemma_cuts_ordered(cuts: Seq<int>, i: int, j: int)
    requires
        0 <= i <= j < cuts.len(),
        forall|t: int| 0 <= t < cuts.len() - 1 ==> #[trigger] rises_at(cuts, t),
    ensures
        cuts[i] <= cuts[j],
    decreases j - i,
{
    if i < j {
        lemma_cuts_ordered(cuts, i + 1, j);
        assert(rises_at(cuts, i));
    }
}

proof fn lemma_find_cut(cuts: Seq<int>, k: int, i: int) -> (idx: int)
    requires
        0 <= i < cuts.len(),
        cuts[i] <= k < cuts.last(),
        forall|t: int| 0 <= t < cuts.len() - 1 ==> #[trigger] rises_at(cuts, t),
    ensures
        i < idx < cuts.len(),
        cuts[idx - 1] <= k < cuts[idx],
    decreases cuts.len() - i,
{
    if cuts[i + 1] > k {
        i + 1
    } else {
        lemma_find_cut(cuts, k, i + 1)
    }
}

/// No way of dealing the sentences into consecutive groups within the budget makes
/// fewer groups than chunking does.
pub proof fn law_chunks_are_fewest(pieces: Seq<Piece>, cuts: Seq<int>, max: nat)
    requires
        is_split_within(pieces, cuts, max),
    ensures
        grouped(pieces, max).len() <= cuts.len() - 1,
    decreases pieces.len(),
{
    if pieces.len() > 0 {
        lemma_grouped_unfold(pieces, max);
        let k = first_chunk_len(pieces, max) as int;
        let len = pieces.len() as int;
        assert(cuts.len() >= 2);
        assert(rises_at(cuts, 0));
        assert(within_at(pieces, cuts, 0, max));
        lemma_cuts_ordered(cuts, 1, cuts.len() - 1);
        let tail = pieces.drop_first();
        if cuts[1] > 0 {
            assert(pieces.subrange(cuts[0], cuts[1]) =~= seq![pieces[0]] + tail.take(cuts[1] - 1));
            lemma_load_front(pieces[0], tail.take(cuts[1] - 1));
            lemma_run_takes_all_that_fit(tail, pieces[0].tokens, max, cuts[1] - 1);
        }
        assert(cuts[1] <= k);
        if k < len {
            let idx = lemma_find_cut(cuts, k, 1);
            let rest = pieces.skip(k);
            let fresh = Seq::new(
                (1 + cuts.len() - idx) as nat,
                |t: int|
                    if t == 0 {
                        0
                    } else {
                        cuts[idx + t - 1] - k
                    },
            );
            assert(fresh.last() == rest.len());
            assert forall|t: int| 0 <= t < fresh.len() - 1 implies #[trigger] rises_at(fresh, t) by {
                if t > 0 {
                    assert(rises_at(cuts, idx + t - 1));
                }
            }
            assert forall|t: int| 0 <= t < fresh.len() - 1 implies #[trigger] within_at(
                rest,
                fresh,
                t,
                max,
            ) by {
                let low = cuts[idx + t - 1];
                let high = cuts[idx + t];
                assert(within_at(pieces, cuts, idx + t - 1, max));
                assert(rises_at(cuts, idx + t - 1));
                lemma_cuts_ordered(cuts, idx, idx + t);
                lemma_cuts_ordered(cuts, idx + t, cuts.len() - 1);
                lemma_cuts_ordered(cuts, 0, idx + t - 1);
                if t == 0 {
                    assert(pieces.subrange(low, high) =~= pieces.subrange(low, k)
                        + pieces.subrange(k, high));
                    lemma_load_concat(pieces.subrange(low, k), pieces.subrange(k, high));
                    assert(rest.subrange(0, high - k) =~= pieces.subrange(k, high));
                } else {
                    lemma_cuts_ordered(cuts, idx, idx + t - 1);
                    assert(rest.subrange(low - k, high - k) =~= pieces.subrange(low, high));
                }
            }
            law_chunks_are_fewest(rest, fresh, max);
            assert(grouped(pieces, max).len() == 1 + grouped(rest, max).len());
        } else {
            assert(pieces.skip(k) =~= Seq::<Piece>::empty());
            assert(grouped(pieces, max).len() == 1);
        }
    }
}

proof fn lemma_counted_concat(x: Seq<Piece>, y: Seq<Piece>)
    ensures
        counted(x + y) == counted(x) + counted(y),
    decreases x.len(),
{
    if x.len() == 0 {
        assert(x + y =~= y);
        assert(counted(x) + counted(y) =~= counted(y));
    } else {
        assert((x + y).drop_first() =~= x.drop_first() + y);
        lemma_counted_concat(x.drop_first(), y);
        assert((seq![x[0]] + counted(x.drop_first())) + counted(y) =~= seq![x[0]] + (counted(
            x.drop_first(),
        ) + counted(y)));
    }
}

proof fn lemma_load_counted(x: Seq<Piece>)
    ensures
        load(counted(x)) == load(x),
    decreases x.len(),
{
    if x.len() == 0 {
        assert(counted(x) =~= x);
    } else {
        lemma_load_counted(x.drop_first());
        assert(x =~= seq![x[0]] + x.drop_first());
        lemma_load_front(x[0], x.drop_first());
        if x[0].tokens > 0 {
            lemma_load_front(x[0], counted(x.drop_first()));
        }
    }
}

/// The cuts of a split, counted in the sentences that have tokens.
spec fn kept_cuts(pieces: Seq<Piece>, cuts: Seq<int>) -> Seq<int> {
    Seq::new(cuts.len(), |i: int| counted(pieces.take(cuts[i])).len() as int)
}

proof fn lemma_kept_stretch(pieces: Seq<Piece>, cuts: Seq<int>, max: nat, i: int)
    requires
        is_split_within(pieces, cuts, max),
        0 <= i < cuts.len() - 1,
    ensures
        rises_at(kept_cuts(pieces, cuts), i),
        within_at(counted(pieces), kept_cuts(pieces, cuts), i, max),
{
    let kept = counted(pieces);
    let fresh = kept_cuts(pieces, cuts);
    let low = cuts[i];
    let high = cuts[i + 1];
    assert(rises_at(cuts, i));
    assert(within_at(pieces, cuts, i, max));
    lemma_cuts_ordered(cuts, 0, i);
    lemma_cuts_ordered(cuts, i + 1, cuts.len() - 1);
    let before = pieces.take(low);
    let between = pieces.subrange(low, high);
    let after = pieces.skip(high);
    assert(pieces.take(high) =~= before + between);
    assert(pieces =~= (before + between) + after);
    lemma_counted_concat(before, between);
    lemma_counted_concat(before + between, after);
    lemma_load_counted(between);
    assert(kept.subrange(fresh[i], fresh[i + 1]) =~= counted(between));
}

/// No way of dealing the sentences of a text into consecutive groups within the
/// budget makes fewer groups than there are chunks.
pub proof fn law_fewest_chunks(pieces: Seq<Piece>, cuts: Seq<int>, max: nat)
    requires
        is_split_within(pieces, cuts, max),
    ensures
        chunks_of(pieces, max).len() <= cuts.len() - 1,
{
    let kept = counted(pieces);
    let fresh = kept_cuts(pieces, cuts);
    assert(pieces.take(0) =~= Seq::<Piece>::empty());
    assert(pieces.take(pieces.len() as int) =~= pieces);
    assert forall|i: int| 0 <= i < fresh.len() - 1 implies #[trigger] rises_at(fresh, i) by {
        lemma_kept_stretch(pieces, cuts, max, i);
    }
    assert forall|i: int| 0 <= i < fresh.len() - 1 implies #[trigger] within_at(
        kept,
        fresh,
        i,
        max,
    ) by {
        lemma_kept_stretch(pieces, cuts, max, i);
    }
    law_chunks_are_fewest(kept, fresh, max);
}

/// Chunking drops no sentence that has tokens and fills no chunk beyond the budget,
/// but for a chunk that is one sentence: the chunks are the texts of groups which,
/// put end to end, are the sentences with tokens, each group of two or more
/// sentences weighs at most `max` tokens, and a group ends only where the sentence
/// after it would not fit.
pub proof fn law_chunking(pieces: Seq<Piece>, max: nat)
    ensures
        ({
            let groups = grouped(counted(pieces), max);
            &&& chunks_of(pieces, max) == rendered_all(groups)
            &&& groups.flatten() == pieces.filter(|p: Piece| p.tokens > 0)
            &&& forall|j: int|
                0 <= j < groups.len() ==> (#[trigger] groups[j]).len() >= 1 && (groups[j].len() >= 2
                    ==> load(groups[j]) <= max)
            &&& forall|j: int|
                0 <= j && j + 1 < groups.len() ==> load(#[trigger] groups[j]) + groups[j
                    + 1][0].tokens > max
        }),
{
    let groups = grouped(counted(pieces), max);
    assert forall|j: int| 0 <= j && j + 1 < groups.len() implies load(#[trigger] groups[j])
        + groups[j + 1][0].tokens > max by {
        law_chunks_close_only_when_full(counted(pieces), max, j);
    }
    law_counted_are_those_with_tokens(pieces);
    law_chunks_keep_every_sentence(counted(pieces), max);
    assert forall|j: int| 0 <= j < groups.len() implies (#[trigger] groups[j]).len() >= 1 && (
    groups[j].len() >= 2 ==> load(groups[j]) <= max) by {
        law_chunks_within_budget(counted(pieces), max, j);
    }
}

/// The sentences that count are those with tokens, and no others.
pub proof fn law_counted_are_those_with_tokens(pieces: Seq<Piece>)
    ensures
        counted(pieces) == pieces.filter(|p: Piece| p.tokens > 0),
    decreases pieces.len(),
{
    let keep = |p: Piece| p.tokens > 0;
    if pieces.len() == 0 {
        assert(pieces.filter(keep) =~= Seq::<Piece>::empty());
    } else {
        law_counted_are_those_with_tokens(pieces.drop_first());
        assert(pieces =~= seq![pieces[0]] + pieces.drop_first());
        pieces.drop_first().lemma_filter_prepend(pieces[0], keep);
        if pieces[0].tokens == 0 {
            assert(Seq::<Piece>::empty() + pieces.drop_first().filter(keep)
                =~= pieces.drop_first().filter(keep));
        }
    }
}

} // verus!
