//! The chunker: splits input text into an ordered sequence of bounded-size
//! chunks along word boundaries.
//!
//! A word is a maximal run of characters none of which is Unicode
//! whitespace.
//! Chunks are words joined by single spaces, grown greedily: a word joins the
//! chunk under construction while the joined text stays within the maximum
//! byte length, and otherwise starts a new chunk. The chunk that opens the
//! text budgets one extra byte for a trailing separator, so it closes one
//! byte earlier than the later ones. A single word longer than the maximum
//! forms its own oversized chunk — a documented edge case, not an error.
//! Splitting is purely functional and deterministic.

use vstd::prelude::*;
use vstd::string::StrSliceExecFns;
use vstd::string::StringExecFns;
use vstd::utf8::encode_utf8;

verus! {

broadcast use vstd::slice::group_slice_axioms;

/// Whether `c` separates words: the Unicode white-space characters (the
/// `White_Space` property) — the ASCII whitespace controls and space, the
/// next line, no-break space and ogham space mark, the typographic spaces,
/// the line and paragraph separators, and the narrow no-break, medium
/// mathematical and ideographic spaces.
pub open spec fn is_space(c: char) -> bool {
    let v: u32 = c as u32;
    ||| v == 0x09
    ||| v == 0x0A
    ||| v == 0x0B
    ||| v == 0x0C
    ||| v == 0x0D
    ||| v == 0x20
    ||| v == 0x85
    ||| v == 0xA0
    ||| v == 0x1680
    ||| (0x2000 <= v && v <= 0x200A)
    ||| v == 0x2028
    ||| v == 0x2029
    ||| v == 0x202F
    ||| v == 0x205F
    ||| v == 0x3000
}

/// The byte length of a text: the length of its UTF-8 encoding.
pub open spec fn text_len(s: Seq<char>) -> nat {
    encode_utf8(s).len()
}

/// The words collected by a left-to-right scan of `s`, paired with the word
/// still under construction when the scan stopped.
pub open spec fn scan_words(s: Seq<char>) -> (Seq<Seq<char>>, Seq<char>)
    decreases s.len(),
{
    if s.len() == 0 {
        (Seq::empty(), Seq::empty())
    } else {
        let st = scan_words(s.drop_last());
        let c = s.last();
        if is_space(c) {
            if st.1.len() == 0 {
                st
            } else {
                (st.0.push(st.1), Seq::<char>::empty())
            }
        } else {
            (st.0, st.1.push(c))
        }
    }
}

/// The words of `s`: its maximal runs of non-whitespace characters, in order.
pub open spec fn words_of(s: Seq<char>) -> Seq<Seq<char>> {
    let st = scan_words(s);
    if st.1.len() == 0 {
        st.0
    } else {
        st.0.push(st.1)
    }
}

/// The state of the greedy grouping scan: the chunks already closed, the
/// chunk still open, and whether the open chunk is the one that opened the
/// text. That first chunk budgets one extra byte for a trailing separator,
/// so it takes one byte less of text than the later chunks.
#[verifier::ext_equal]
pub struct ChunkScan {
    pub done: Seq<Seq<char>>,
    pub cur: Seq<char>,
    pub fresh: bool,
}

/// One word of the grouping scan. The first word opens the text's first
/// chunk — with its separator budget — unless it already fills the maximum by
/// itself. A later word joins the open chunk while the joined text, one
/// separating space added, stays within the open chunk's budget, and
/// otherwise closes that chunk and opens a new one.
pub open spec fn chunk_step(st: ChunkScan, w: Seq<char>, max: int) -> ChunkScan {
    if st.cur.len() == 0 {
        (ChunkScan { done: st.done, cur: w, fresh: text_len(w) + 1 <= max })
    } else {
        let extra: int = if st.fresh {
            1
        } else {
            0
        };
        if text_len(st.cur) + 1 + text_len(w) + extra <= max {
            (ChunkScan { done: st.done, cur: st.cur + seq![' '] + w, fresh: st.fresh })
        } else {
            (ChunkScan { done: st.done.push(st.cur), cur: w, fresh: false })
        }
    }
}

/// The grouping scan over a whole word sequence, oldest word first.
pub open spec fn chunk_scan(ws: Seq<Seq<char>>, max: int) -> ChunkScan
    decreases ws.len(),
{
    if ws.len() == 0 {
        (ChunkScan { done: Seq::empty(), cur: Seq::empty(), fresh: true })
    } else {
        chunk_step(chunk_scan(ws.drop_last(), max), ws.last(), max)
    }
}

/// The greedy grouping of words into chunks: the scan's closed chunks,
/// followed by the chunk still open when the words ran out.
pub open spec fn chunks_of_words(ws: Seq<Seq<char>>, max: int) -> Seq<Seq<char>> {
    let st = chunk_scan(ws, max);
    if st.cur.len() == 0 {
        st.done
    } else {
        st.done.push(st.cur)
    }
}

/// The chunks of an input text under maximum byte length `max`.
pub open spec fn chunks_of(s: Seq<char>, max: int) -> Seq<Seq<char>> {
    chunks_of_words(words_of(s), max)
}

/// Texts joined by single spaces.
pub open spec fn join_with_spaces(xs: Seq<Seq<char>>) -> Seq<char>
    decreases xs.len(),
{
    if xs.len() == 0 {
        Seq::empty()
    } else if xs.len() == 1 {
        xs[0]
    } else {
        join_with_spaces(xs.drop_last()) + seq![' '] + xs.last()
    }
}

/// The whitespace-normalized form of a text: its words joined by single
/// spaces.
pub open spec fn normalized(s: Seq<char>) -> Seq<char> {
    join_with_spaces(words_of(s))
}

/// Whether a text contains no word separator, i.e. consists of (part of) a
/// single word.
pub open spec fn has_no_space(w: Seq<char>) -> bool {
    forall|i: int| 0 <= i < w.len() ==> !is_space(#[trigger] w[i])
}

/// UTF-8 encoding distributes over concatenation.
pub proof fn lemma_encode_utf8_concat(a: Seq<char>, b: Seq<char>)
    ensures
        encode_utf8(a + b) == encode_utf8(a) + encode_utf8(b),
    decreases a.len(),
{
    if a.len() == 0 {
        assert(a + b =~= b);
        assert(encode_utf8(a) + encode_utf8(b) =~= encode_utf8(b));
    } else {
        assert((a + b).drop_first() =~= a.drop_first() + b);
        assert((a + b)[0] == a[0]);
        assert((a + b).len() > 0);
        lemma_encode_utf8_concat(a.drop_first(), b);
        assert(encode_utf8(a + b) =~= encode_utf8(a) + encode_utf8(b));
    }
}

/// A single space occupies one byte.
proof fn lemma_space_one_byte()
    ensures
        text_len(seq![' ']) == 1,
{
    let s = seq![' '];
    assert(s.drop_first() =~= Seq::<char>::empty());
    assert(' ' as u32 == 32);
    assert(vstd::utf8::encode_scalar(' ' as u32).len() == 1);
    assert(encode_utf8(s) =~= vstd::utf8::encode_scalar(' ' as u32) + encode_utf8(
        Seq::<char>::empty(),
    ));
}

/// Every word the scan has collected, and the word under construction, is
/// free of separators, and collected words are nonempty.
proof fn lemma_scan_words_wf(s: Seq<char>)
    ensures
        forall|i: int|
            0 <= i < scan_words(s).0.len() ==> (#[trigger] scan_words(s).0[i]).len() > 0
                && has_no_space(scan_words(s).0[i]),
        has_no_space(scan_words(s).1),
    decreases s.len(),
{
    if s.len() > 0 {
        lemma_scan_words_wf(s.drop_last());
    }
}

/// Every word of a text is nonempty and free of separators.
pub proof fn lemma_words_wf(s: Seq<char>)
    ensures
        forall|i: int|
            0 <= i < words_of(s).len() ==> (#[trigger] words_of(s)[i]).len() > 0 && has_no_space(
                words_of(s)[i],
            ),
{
    lemma_scan_words_wf(s);
}

/// The grouping scan's invariants over nonempty, separator-free words: the
/// open chunk is empty exactly while no word was seen, closed chunks are
/// nonempty and within the bound unless they are a single word, the open
/// chunk respects its own budget, and the text read so far is preserved: the
/// chunks joined by single spaces read as the words joined by single spaces.
proof fn lemma_chunk_scan_invariants(ws: Seq<Seq<char>>, max: int)
    requires
        forall|i: int|
            0 <= i < ws.len() ==> (#[trigger] ws[i]).len() > 0 && has_no_space(ws[i]),
    ensures
        (chunk_scan(ws, max).cur.len() == 0) == (ws.len() == 0),
        ws.len() == 0 ==> chunk_scan(ws, max).done.len() == 0,
        join_with_spaces(chunks_of_words(ws, max)) == join_with_spaces(ws),
        forall|i: int|
            0 <= i < chunk_scan(ws, max).done.len() ==> (#[trigger] chunk_scan(
                ws,
                max,
            ).done[i]).len() > 0 && (text_len(chunk_scan(ws, max).done[i]) <= max
                || has_no_space(chunk_scan(ws, max).done[i])),
        ws.len() > 0 ==> text_len(chunk_scan(ws, max).cur) + (if chunk_scan(ws, max).fresh {
            1int
        } else {
            0int
        }) <= max || has_no_space(chunk_scan(ws, max).cur),
    decreases ws.len(),
{
    if ws.len() > 0 {
        let tail = ws.drop_last();
        let w = ws.last();
        assert forall|i: int| 0 <= i < tail.len() implies (#[trigger] tail[i]).len() > 0
            && has_no_space(tail[i]) by {
            assert(tail[i] == ws[i]);
        }
        assert(w == ws[ws.len() - 1]);
        lemma_chunk_scan_invariants(tail, max);
        let st = chunk_scan(tail, max);
        let st2 = chunk_scan(ws, max);
        assert(st2 == chunk_step(st, w, max));
        let prev = chunks_of_words(tail, max);
        let cur = chunks_of_words(ws, max);
        if st.cur.len() == 0 {
            // first word: one open chunk, nothing closed yet
            assert(tail.len() == 0);
            assert(st2.done =~= Seq::<Seq<char>>::empty());
            assert(cur =~= seq![w]);
            assert(ws =~= seq![w]);
            assert(join_with_spaces(cur) == w);
            assert(join_with_spaces(ws) == w);
        } else {
            assert(tail.len() > 0);
            assert(ws.len() >= 2);
            assert(prev =~= st.done.push(st.cur));
            assert(join_with_spaces(ws) == join_with_spaces(tail) + seq![' '] + w);
            let extra: int = if st.fresh {
                1int
            } else {
                0int
            };
            if text_len(st.cur) + 1 + text_len(w) + extra <= max {
                // the word joins the open chunk
                let joined = st.cur + seq![' '] + w;
                lemma_encode_utf8_concat(st.cur + seq![' '], w);
                lemma_encode_utf8_concat(st.cur, seq![' ']);
                lemma_space_one_byte();
                assert(text_len(joined) == text_len(st.cur) + 1 + text_len(w));
                assert(st2.done == st.done);
                assert(st2.cur == joined);
                assert(cur =~= st.done.push(joined));
                if st.done.len() == 0 {
                    assert(join_with_spaces(cur) == joined);
                    assert(join_with_spaces(prev) == st.cur);
                } else {
                    assert(cur.drop_last() =~= st.done);
                    assert(prev.drop_last() =~= st.done);
                    assert(join_with_spaces(cur) == join_with_spaces(st.done) + seq![' ']
                        + joined);
                    assert(join_with_spaces(prev) == join_with_spaces(st.done) + seq![' ']
                        + st.cur);
                    assert(join_with_spaces(st.done) + seq![' '] + (st.cur + seq![' '] + w)
                        =~= (join_with_spaces(st.done) + seq![' '] + st.cur) + seq![' '] + w);
                }
                assert(join_with_spaces(cur) =~= join_with_spaces(prev) + seq![' '] + w);
            } else {
                // the open chunk closes; the word opens a new one
                assert(st2.done =~= st.done.push(st.cur));
                assert(st2.cur == w);
                assert(cur =~= st.done.push(st.cur).push(w));
                assert(cur.drop_last() =~= prev);
                assert(cur.len() >= 2);
                assert(join_with_spaces(cur) == join_with_spaces(prev) + seq![' '] + w);
                assert forall|i: int| 0 <= i < st2.done.len() implies (
                #[trigger] st2.done[i]).len() > 0 && (text_len(st2.done[i]) <= max
                    || has_no_space(st2.done[i])) by {
                    if i < st2.done.len() - 1 {
                        assert(st2.done[i] == st.done[i]);
                    } else {
                        assert(st2.done[i] == st.cur);
                    }
                }
            }
            assert(join_with_spaces(cur) =~= join_with_spaces(ws));
        }
    }
}

/// Grouping words into chunks neither loses, reorders nor alters text: the
/// chunks joined by single spaces read as the words joined by single spaces.
/// And there are chunks exactly when there are words.
pub proof fn lemma_chunks_preserve_text(ws: Seq<Seq<char>>, max: int)
    requires
        forall|i: int|
            0 <= i < ws.len() ==> (#[trigger] ws[i]).len() > 0 && has_no_space(ws[i]),
    ensures
        join_with_spaces(chunks_of_words(ws, max)) == join_with_spaces(ws),
        (ws.len() == 0) == (chunks_of_words(ws, max).len() == 0),
{
    lemma_chunk_scan_invariants(ws, max);
}

/// Law: for every input text and every maximum length, concatenating the
/// chunk texts with single spaces reproduces the whitespace-normalized input.
pub proof fn lemma_chunks_concat_normalized(s: Seq<char>, max: int)
    ensures
        join_with_spaces(chunks_of(s, max)) == normalized(s),
{
    lemma_words_wf(s);
    lemma_chunks_preserve_text(words_of(s), max);
}

/// Grouping words that are nonempty and separator-free yields chunks that are
/// nonempty and within `max` bytes — except that a chunk may exceed `max`
/// only when it is a single word.
pub proof fn lemma_chunks_of_words_bounded(ws: Seq<Seq<char>>, max: int)
    requires
        forall|i: int|
            0 <= i < ws.len() ==> (#[trigger] ws[i]).len() > 0 && has_no_space(ws[i]),
    ensures
        forall|i: int|
            0 <= i < chunks_of_words(ws, max).len() ==> (#[trigger] chunks_of_words(ws, max)[i]).len()
                > 0 && (text_len(chunks_of_words(ws, max)[i]) <= max || has_no_space(
                chunks_of_words(ws, max)[i],
            )),
{
    lemma_chunk_scan_invariants(ws, max);
    let st = chunk_scan(ws, max);
    let cur = chunks_of_words(ws, max);
    assert forall|i: int| 0 <= i < cur.len() implies (#[trigger] cur[i]).len() > 0 && (text_len(
        cur[i],
    ) <= max || has_no_space(cur[i])) by {
        if st.cur.len() == 0 {
            assert(cur[i] == st.done[i]);
        } else if i < cur.len() - 1 {
            assert(cur[i] == st.done[i]);
        } else {
            assert(cur[i] == st.cur);
        }
    }
}

/// Law: every chunk of an input text is nonempty, and no chunk exceeds `max`
/// bytes unless it is a single oversized word.
pub proof fn lemma_chunks_bounded(s: Seq<char>, max: int)
    ensures
        forall|i: int|
            0 <= i < chunks_of(s, max).len() ==> (#[trigger] chunks_of(s, max)[i]).len() > 0 && (
            text_len(chunks_of(s, max)[i]) <= max || has_no_space(chunks_of(s, max)[i])),
{
    lemma_words_wf(s);
    lemma_chunks_of_words_bounded(words_of(s), max);
}

/// Whether `c` separates words (the executable form of `is_space`).
fn is_space_char(c: char) -> (r: bool)
    ensures
        r == is_space(c),
{
    let v: u32 = c as u32;
    v == 0x09 || v == 0x0A || v == 0x0B || v == 0x0C || v == 0x0D || v == 0x20 || v == 0x85
        || v == 0xA0 || v == 0x1680 || (0x2000 <= v && v <= 0x200A) || v == 0x2028 || v == 0x2029
        || v == 0x202F || v == 0x205F || v == 0x3000
}

/// Split a text into its words: the maximal runs of non-whitespace
/// characters, in order of appearance.
pub fn split_words(input_text: &str) -> (words: Vec<String>)
    ensures
        words.deep_view() == words_of(input_text@),
{
    let ghost s = input_text@;
    let n = input_text.unicode_len();
    let mut words: Vec<String> = Vec::new();
    let mut start: usize = 0;
    let mut i: usize = 0;
    while i < n
        invariant
            n == s.len(),
            s == input_text@,
            0 <= start <= i <= n,
            scan_words(s.take(i as int)) == (words.deep_view(), s.subrange(
                start as int,
                i as int,
            )),
        decreases n - i,
    {
        let c = input_text.get_char(i);
        proof {
            assert(s.take(i as int + 1).drop_last() =~= s.take(i as int));
            assert(s.take(i as int + 1).last() == s[i as int]);
        }
        if is_space_char(c) {
            if start < i {
                let w = input_text.substring_char(start, i);
                let owned = w.to_owned();
                proof {
                    assert(s.subrange(start as int, i as int).len() > 0);
                }
                words.push(owned);
                proof {
                    assert(words.deep_view() =~= scan_words(s.take(i as int)).0.push(
                        s.subrange(start as int, i as int),
                    ));
                }
            } else {
                proof {
                    assert(s.subrange(start as int, i as int).len() == 0);
                }
            }
            start = i + 1;
            proof {
                assert(s.subrange(start as int, i as int + 1) =~= Seq::<char>::empty());
            }
        } else {
            proof {
                assert(s.subrange(start as int, i as int + 1) =~= s.subrange(
                    start as int,
                    i as int,
                ).push(s[i as int]));
            }
        }
        i = i + 1;
    }
    proof {
        assert(s.take(n as int) =~= s);
    }
    if start < n {
        let w = input_text.substring_char(start, n);
        let owned = w.to_owned();
        words.push(owned);
        proof {
            assert(words.deep_view() =~= scan_words(s).0.push(
                s.subrange(start as int, n as int),
            ));
            assert(scan_words(s).1 == s.subrange(start as int, n as int));
            assert(scan_words(s).1.len() > 0);
        }
    } else {
        proof {
            assert(scan_words(s).1.len() == 0);
        }
    }
    proof {
        assert(words.deep_view() =~= words_of(s));
    }
    words
}

/// Group words into chunks greedily: each word joins the chunk under
/// construction while the joined text stays within `max_length` bytes (the
/// text's first chunk budgets one extra byte for a trailing separator), and
/// otherwise starts a new chunk of its own.
pub fn build_chunks(words: &Vec<String>, max_length: usize) -> (chunks: Vec<String>)
    ensures
        chunks.deep_view() == chunks_of_words(words.deep_view(), max_length as int),
{
    let ghost ws = words.deep_view();
    let mut done: Vec<String> = Vec::new();
    let mut cur: String = String::new();
    let mut fresh: bool = true;
    let mut i: usize = 0;
    while i < words.len()
        invariant
            ws == words.deep_view(),
            0 <= i <= words.len(),
            ws.len() == words.len(),
            chunk_scan(ws.take(i as int), max_length as int) == (ChunkScan {
                done: done.deep_view(),
                cur: cur@,
                fresh: fresh,
            }),
        decreases words.len() - i,
    {
        proof {
            assert(ws.take(i as int + 1).drop_last() =~= ws.take(i as int));
            assert(ws.take(i as int + 1).last() == ws[i as int]);
            assert(ws[i as int] == words[i as int]@);
        }
        let w = &words[i];
        let w_len = w.as_str().as_bytes().len();
        proof {
            assert(w_len == text_len(ws[i as int]));
        }
        if cur.as_str().is_empty() {
            // the first word opens the text's first chunk, which keeps its
            // separator budget unless the word already fills the maximum
            fresh = w_len < max_length;
            cur = w.clone();
            proof {
                assert(chunk_scan(ws.take(i as int + 1), max_length as int) =~= (ChunkScan {
                    done: done.deep_view(),
                    cur: cur@,
                    fresh: fresh,
                }));
            }
        } else {
            let cur_len = cur.as_str().as_bytes().len();
            let ghost prev_done = done.deep_view();
            let ghost prev_cur = cur@;
            proof {
                assert(cur_len == text_len(cur@));
            }
            let extra: usize = if fresh {
                1
            } else {
                0
            };
            // joined length within budget: cur_len + 1 + w_len + extra <= max,
            // computed without overflow or underflow
            let fits = cur_len < max_length && max_length - cur_len - 1 >= extra && w_len
                <= max_length - cur_len - 1 - extra;
            proof {
                assert(fits == (cur_len as int + 1 + w_len as int + extra as int
                    <= max_length as int));
            }
            if fits {
                cur.append(" ");
                cur.append(w.as_str());
                proof {
                    reveal_strlit(" ");
                    assert(" "@ =~= seq![' ']);
                    assert(cur@ =~= prev_cur + seq![' '] + ws[i as int]);
                    assert(chunk_scan(ws.take(i as int + 1), max_length as int) =~= (ChunkScan {
                        done: done.deep_view(),
                        cur: cur@,
                        fresh: fresh,
                    }));
                }
            } else {
                done.push(cur);
                cur = w.clone();
                fresh = false;
                proof {
                    assert(done.deep_view() =~= prev_done.push(prev_cur));
                    assert(chunk_scan(ws.take(i as int + 1), max_length as int) =~= (ChunkScan {
                        done: done.deep_view(),
                        cur: cur@,
                        fresh: fresh,
                    }));
                }
            }
        }
        i = i + 1;
    }
    proof {
        assert(ws.take(words.len() as int) =~= ws);
    }
    if cur.as_str().is_empty() {
        proof {
            assert(chunks_of_words(ws, max_length as int) =~= done.deep_view());
        }
        done
    } else {
        let ghost cur_view = cur@;
        let ghost prev_done = done.deep_view();
        done.push(cur);
        proof {
            assert(done.deep_view() =~= prev_done.push(cur_view));
            assert(chunks_of_words(ws, max_length as int) =~= done.deep_view());
        }
        done
    }
}

/// Split input text into an ordered sequence of chunks along word boundaries,
/// each at most `max_length` bytes — except that a single word longer than
/// `max_length` forms its own oversized chunk. Joining the chunks with single
/// spaces reproduces the whitespace-normalized input.
pub fn split_input(input_text: &str, max_length: usize) -> (chunks: Vec<String>)
    ensures
        chunks.deep_view() == chunks_of(input_text@, max_length as int),
{
    let words = split_words(input_text);
    build_chunks(&words, max_length)
}

} // verus!
