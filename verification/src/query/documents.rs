//! Which documents a query over a finished index finds, stated over the
//! documents that were added to the writer one after the other.
use crate::analyzer::char_filter::CharFilter;
use crate::analyzer::token_filter::TokenFilter;
use crate::analyzer::tokenizer::Tokenizer;
use crate::index::postings::PostingsInfo;
use crate::index::writer::Writer;
use crate::query::query::{exact_lists, exact_pick, holds, picked_postings, ranking_ok, Query};
use vstd::prelude::*;

verus! {

/// `after` is `before` once the document `id` was added with the terms
/// `kept`: each of those terms gets one posting of it at the end, every other
/// term keeps its postings.
pub open spec fn doc_added<C: CharFilter, T: TokenFilter, I: Tokenizer>(
    before: Writer<C, T, I>,
    after: Writer<C, T, I>,
    id: u64,
    kept: Seq<Seq<char>>,
) -> bool {
    &&& forall|t: Seq<char>|
        kept.contains(t) ==> {
            &&& #[trigger] after.postings_of(t).len() == before.postings_of(t).len() + 1
            &&& after.postings_of(t).drop_last() == before.postings_of(t)
            &&& after.postings_of(t).last().external_id == id
        }
    &&& forall|t: Seq<char>| !kept.contains(t) ==> #[trigger] after.postings_of(t) == before.postings_of(t)
}

/// The writers `ws` are one writer as documents were added to it in turn,
/// all with the same analyzer: `ws[i + 1]` is `ws[i]` once the document
/// `ids[i]` with the text `texts[i]` was added.
pub open spec fn added_in_turn<C: CharFilter, T: TokenFilter, I: Tokenizer>(
    ws: Seq<Writer<C, T, I>>,
    ids: Seq<u64>,
    texts: Seq<Seq<char>>,
) -> bool {
    &&& ws.len() == ids.len() + 1
    &&& texts.len() == ids.len()
    &&& forall|i: int| 0 <= i < ws.len() ==> #[trigger] ws[i].analyzer_of() == ws[0].analyzer_of()
    &&& forall|i: int|
        0 <= i < ids.len() ==> doc_added(
            #[trigger] ws[i],
            ws[i + 1],
            ids[i],
            ws[0].analyzer_of().kept(texts[i]),
        )
}

/// One of the documents added keeps the term `t` and has the external id `x`.
pub open spec fn added_with<C: CharFilter, T: TokenFilter, I: Tokenizer>(
    ws: Seq<Writer<C, T, I>>,
    ids: Seq<u64>,
    texts: Seq<Seq<char>>,
    t: Seq<char>,
    x: u64,
) -> bool {
    exists|i: int| 0 <= i < ids.len() && ids[i] == x && #[trigger] ws[0].analyzer_of().kept(texts[i]).contains(t)
}

proof fn lemma_holds_push(q: Seq<PostingsInfo>, p: PostingsInfo, x: u64)
    ensures
        holds(q.push(p), x) <==> holds(q, x) || p.external_id == x,
{
    if holds(q, x) {
        let k = choose|k: int| 0 <= k < q.len() && #[trigger] q[k].external_id == x;
        assert(q.push(p)[k] == q[k]);
    }
    if p.external_id == x {
        assert(q.push(p)[q.len() as int] == p);
    }
    if holds(q.push(p), x) {
        let k = choose|k: int| 0 <= k < q.push(p).len() && #[trigger] q.push(p)[k].external_id == x;
        if k < q.len() {
            assert(q[k] == q.push(p)[k]);
        }
    }
}

/// What the postings of a writer name. After documents were added in turn
/// to a writer that had no postings, the postings of a term name exactly the
/// documents whose kept terms hold it.
pub proof fn lemma_postings_name_documents<C: CharFilter, T: TokenFilter, I: Tokenizer>(
    ws: Seq<Writer<C, T, I>>,
    ids: Seq<u64>,
    texts: Seq<Seq<char>>,
)
    requires
        added_in_turn(ws, ids, texts),
        forall|t: Seq<char>| #[trigger] ws[0].postings_of(t).len() == 0,
    ensures
        forall|t: Seq<char>, x: u64|
            #[trigger] holds(ws.last().postings_of(t), x) <==> added_with(ws, ids, texts, t, x),
    decreases ids.len(),
{
    let n = ids.len() as int;
    if n == 0 {
        assert forall|t: Seq<char>, x: u64| #[trigger] holds(ws.last().postings_of(t), x) <==> added_with(
            ws,
            ids,
            texts,
            t,
            x,
        ) by {
            assert(ws.last() == ws[0]);
        }
    } else {
        let ws1 = ws.drop_last();
        let ids1 = ids.drop_last();
        let texts1 = texts.drop_last();
        assert forall|i: int| 0 <= i < ws1.len() implies #[trigger] ws1[i].analyzer_of()
            == ws1[0].analyzer_of() by {
            assert(ws1[i] == ws[i]);
            assert(ws1[0] == ws[0]);
        }
        assert forall|i: int| 0 <= i < ids1.len() implies doc_added(
            #[trigger] ws1[i],
            ws1[i + 1],
            ids1[i],
            ws1[0].analyzer_of().kept(texts1[i]),
        ) by {
            assert(ws1[i] == ws[i]);
            assert(ws1[i + 1] == ws[i + 1]);
            assert(ws1[0] == ws[0]);
            assert(doc_added(ws[i], ws[i + 1], ids[i], ws[0].analyzer_of().kept(texts[i])));
        }
        assert(added_in_turn(ws1, ids1, texts1));
        assert(ws1[0] == ws[0]);
        lemma_postings_name_documents(ws1, ids1, texts1);
        let before = ws[n - 1];
        let after = ws[n];
        let kept = ws[0].analyzer_of().kept(texts[n - 1]);
        assert(ws1.last() == before);
        assert(ws.last() == after);
        assert(doc_added(before, after, ids[n - 1], kept));
        assert forall|t: Seq<char>, x: u64| #[trigger] holds(ws.last().postings_of(t), x) <==> added_with(
            ws,
            ids,
            texts,
            t,
            x,
        ) by {
            assert(holds(ws1.last().postings_of(t), x) <==> added_with(ws1, ids1, texts1, t, x));
            if kept.contains(t) {
                let q = before.postings_of(t);
                let a = after.postings_of(t);
                assert(a =~= q.push(a.last()));
                lemma_holds_push(q, a.last(), x);
            }
            if added_with(ws1, ids1, texts1, t, x) {
                let i = choose|i: int|
                    0 <= i < ids1.len() && ids1[i] == x && #[trigger] ws1[0].analyzer_of().kept(
                        texts1[i],
                    ).contains(t);
                assert(ids[i] == ids1[i] && texts[i] == texts1[i]);
                assert(ws[0].analyzer_of().kept(texts[i]).contains(t));
            }
            if added_with(ws, ids, texts, t, x) {
                let i = choose|i: int|
                    0 <= i < ids.len() && ids[i] == x && #[trigger] ws[0].analyzer_of().kept(
                        texts[i],
                    ).contains(t);
                if i < n - 1 {
                    assert(ids[i] == ids1[i] && texts[i] == texts1[i]);
                    assert(ws1[0].analyzer_of().kept(texts1[i]).contains(t));
                }
            }
            if kept.contains(t) && ids[n - 1] == x {
                assert(ws[0].analyzer_of().kept(texts[n - 1]).contains(t));
            }
        }
    }
}

/// What a query over a finished index finds. Where documents were added in
/// turn to a writer that had no postings, and a query looks the writer's
/// terms up as the writer gathered them, a ranking of the query's words
/// holds exactly the documents that keep every one of the words; where no
/// two documents share an external id, one document keeps them all.
pub proof fn lemma_query_finds_documents<C: CharFilter, T: TokenFilter, I: Tokenizer>(
    ws: Seq<Writer<C, T, I>>,
    ids: Seq<u64>,
    texts: Seq<Seq<char>>,
    q: Query<C, T, I>,
    words: Seq<String>,
    order: Seq<u64>,
)
    requires
        added_in_turn(ws, ids, texts),
        forall|t: Seq<char>| #[trigger] ws[0].postings_of(t).len() == 0,
        forall|t: Seq<char>|
            #[trigger] picked_postings(q.term_bytes(), exact_pick(q.fst_entries(), t)) == ws.last().postings_of(t),
        ranking_ok(order, exact_lists(q.term_bytes(), q.fst_entries(), words)),
    ensures
        forall|x: u64|
            #[trigger] order.contains(x) <==> words.len() > 0 && forall|w: int|
                0 <= w < words.len() ==> added_with(ws, ids, texts, #[trigger] words[w]@, x),
        ids.no_duplicates() ==> forall|x: u64|
            #[trigger] order.contains(x) <==> words.len() > 0 && exists|i: int|
                0 <= i < ids.len() && ids[i] == x && forall|w: int|
                    0 <= w < words.len() ==> #[trigger] ws[0].analyzer_of().kept(texts[i]).contains(words[w]@),
{
    lemma_postings_name_documents(ws, ids, texts);
    let lists = exact_lists(q.term_bytes(), q.fst_entries(), words);
    assert forall|w: int, x: u64| 0 <= w < words.len() implies #[trigger] holds(lists[w], x) <==> added_with(
        ws,
        ids,
        texts,
        words[w]@,
        x,
    ) by {
        assert(lists[w] == picked_postings(q.term_bytes(), exact_pick(q.fst_entries(), words[w]@)));
        assert(holds(ws.last().postings_of(words[w]@), x) <==> added_with(ws, ids, texts, words[w]@, x));
    }
    assert forall|x: u64| #[trigger] order.contains(x) <==> words.len() > 0 && forall|w: int|
        0 <= w < words.len() ==> added_with(ws, ids, texts, #[trigger] words[w]@, x) by {
        if order.contains(x) {
            assert forall|w: int| 0 <= w < words.len() implies added_with(ws, ids, texts, #[trigger] words[w]@, x) by {
                assert(holds(lists[w], x));
            }
        }
        if words.len() > 0 && forall|w: int| 0 <= w < words.len() ==> added_with(ws, ids, texts, #[trigger] words[w]@, x) {
            assert forall|w: int| 0 <= w < lists.len() implies #[trigger] holds(lists[w], x) by {
                assert(added_with(ws, ids, texts, words[w]@, x));
            }
        }
    }
    if ids.no_duplicates() {
        let a = ws[0].analyzer_of();
        assert forall|x: u64| #[trigger] order.contains(x) <==> words.len() > 0 && exists|i: int|
            0 <= i < ids.len() && ids[i] == x && forall|w: int|
                0 <= w < words.len() ==> #[trigger] a.kept(texts[i]).contains(words[w]@) by {
            if order.contains(x) {
                assert(added_with(ws, ids, texts, words[0]@, x));
                let i = choose|i: int| 0 <= i < ids.len() && ids[i] == x && #[trigger] a.kept(texts[i]).contains(words[0]@);
                assert forall|w: int| 0 <= w < words.len() implies #[trigger] a.kept(texts[i]).contains(words[w]@) by {
                    assert(added_with(ws, ids, texts, words[w]@, x));
                    let j = choose|j: int| 0 <= j < ids.len() && ids[j] == x && #[trigger] a.kept(texts[j]).contains(words[w]@);
                    assert(ids[i] == ids[j]);
                }
            }
            if words.len() > 0 && exists|i: int|
                0 <= i < ids.len() && ids[i] == x && forall|w: int|
                    0 <= w < words.len() ==> #[trigger] a.kept(texts[i]).contains(words[w]@) {
                let i = choose|i: int|
                    0 <= i < ids.len() && ids[i] == x && forall|w: int|
                        0 <= w < words.len() ==> #[trigger] a.kept(texts[i]).contains(words[w]@);
                assert forall|w: int| 0 <= w < words.len() implies added_with(ws, ids, texts, #[trigger] words[w]@, x) by {
                    assert(a.kept(texts[i]).contains(words[w]@));
                }
            }
        }
    }
}

} // verus!
