//! The similarity search pipeline: vectorization of the catalog, query
//! expansion, cosine scoring, and ranking.

use vstd::prelude::*;

use crate::book::{Book, BookView, TagView};
use crate::score::{score_le, score_num, score_pos, score_positive, score_wf, Score};
use crate::score::{lemma_score_le_total, lemma_score_le_trans, score_le_exec};
use crate::text::{contains_seq, contains_sub, lowercase, lower_of, split_ws, tokens};
use crate::vector::{
    bumped, dot, dot_spec, lemma_dot_bound, lemma_dot_self_is_norm_sq, norm_sq, norm_sq_spec,
    pad_one, values_total, TermVector, COUNT_CAP,
};

verus! {

/// The tokens of `s`, each folded to lowercase.
pub open spec fn lower_terms(s: Seq<char>) -> Seq<Seq<char>> {
    tokens(s).map_values(|t: Seq<char>| lower_of(t))
}

/// All terms contributed by one document, in the order they are counted:
/// lowercased title tokens, lowercased author tokens, lowercased tag names
/// (each as a whole unit), and the year string once, as it stands.
pub open spec fn doc_terms(b: BookView) -> Seq<Seq<char>> {
    lower_terms(b.title) + lower_terms(b.author) + b.tags.map_values(
        |t: TagView| lower_of(t.name),
    ) + seq![b.year]
}

/// Number of occurrences of `k` in `ts`.
pub open spec fn occ(ts: Seq<Seq<char>>, k: Seq<char>) -> nat
    decreases ts.len(),
{
    if ts.len() == 0 {
        0
    } else {
        occ(ts.drop_last(), k) + if ts.last() == k {
            1nat
        } else {
            0nat
        }
    }
}

/// The frequency map of a term sequence: each occurring term maps to its
/// occurrence count.
pub open spec fn counts_map(ts: Seq<Seq<char>>) -> Map<Seq<char>, nat> {
    Map::new(|k: Seq<char>| occ(ts, k) > 0, |k: Seq<char>| occ(ts, k))
}

/// The raw (unpadded) term vector of a document.
pub open spec fn raw_map(b: BookView) -> Map<Seq<char>, nat> {
    counts_map(doc_terms(b))
}

/// `m` padded against `m2`: every key of `m2` is present, with count 0 where
/// `m` did not have it; the counts of `m` are untouched.
pub open spec fn padded_with(
    m: Map<Seq<char>, nat>,
    m2: Map<Seq<char>, nat>,
) -> Map<Seq<char>, nat> {
    Map::new(
        |k: Seq<char>| m.contains_key(k) || m2.contains_key(k),
        |k: Seq<char>|
            if m.contains_key(k) {
                m[k]
            } else {
                0
            },
    )
}

/// The index a document's vector is padded against: its right neighbor, and
/// index 0 for the last document.
pub open spec fn nbr_index(i: int, n: int) -> int {
    if i + 1 < n {
        i + 1
    } else {
        0
    }
}

proof fn lemma_counts_map_push(ts: Seq<Seq<char>>, t: Seq<char>)
    ensures
        counts_map(ts.push(t)) == bumped(counts_map(ts), t),
{
    assert(ts.push(t).drop_last() =~= ts);
    assert(counts_map(ts.push(t)) =~= bumped(counts_map(ts), t));
}

proof fn lemma_pad_keys_shape(m: Map<Seq<char>, nat>, ks: Seq<Seq<char>>)
    ensures
        pad_keys(m, ks) == Map::new(
            |k: Seq<char>| m.contains_key(k) || ks.contains(k),
            |k: Seq<char>|
                if m.contains_key(k) {
                    m[k]
                } else {
                    0
                },
        ),
    decreases ks.len(),
{
    let target = Map::new(
        |k: Seq<char>| m.contains_key(k) || ks.contains(k),
        |k: Seq<char>|
            if m.contains_key(k) {
                m[k]
            } else {
                0
            },
    );
    if ks.len() == 0 {
        assert(pad_keys(m, ks) =~= target);
    } else {
        let d = ks.drop_last();
        lemma_pad_keys_shape(m, d);
        assert forall|k: Seq<char>| #[trigger] ks.contains(k) implies d.contains(k) || k
            == ks.last() by {
            let j = choose|j: int| 0 <= j < ks.len() && ks[j] == k;
            if j < ks.len() - 1 {
                assert(d[j] == k);
            }
        }
        assert forall|k: Seq<char>| #[trigger] d.contains(k) implies ks.contains(k) by {
            let j = choose|j: int| 0 <= j < d.len() && d[j] == k;
            assert(ks[j] == k);
        }
        assert(ks.contains(ks.last()));
        assert(pad_keys(m, ks) =~= target);
    }
}

/// `m` after padding with each key of `ks` in turn.
pub open spec fn pad_keys(m: Map<Seq<char>, nat>, ks: Seq<Seq<char>>) -> Map<Seq<char>, nat>
    decreases ks.len(),
{
    if ks.len() == 0 {
        m
    } else {
        pad_one(pad_keys(m, ks.drop_last()), ks.last())
    }
}


/// Law (neighbor padding): every key of the map a vector was padded against
/// appears in the padded vector, with its own count where the vector had the
/// term and count 0 where it did not.  `vectorize_book` produces exactly
/// `padded_with(raw_map(doc), raw_map(neighbor))` at every index, so this
/// holds of each catalog vector and its neighbor's raw map.
pub proof fn lemma_neighbor_padding(
    m: Map<Seq<char>, nat>,
    m2: Map<Seq<char>, nat>,
    k: Seq<char>,
)
    requires
        m2.contains_key(k),
    ensures
        padded_with(m, m2).contains_key(k),
        padded_with(m, m2)[k] == (if m.contains_key(k) {
            m[k]
        } else {
            0nat
        }),
{
}

/// Build the raw frequency map of one document.
fn build_raw(doc: &Book) -> (v: TermVector)
    requires
        doc_terms(doc@).len() <= COUNT_CAP,
    ensures
        v.wf(),
        v@ == raw_map(doc@),
        v.sum() == doc_terms(doc@).len(),
        v.key_seq().len() <= doc_terms(doc@).len(),
{
    let ghost all = doc_terms(doc@);
    let mut v = TermVector::new();
    let ghost mut done: Seq<Seq<char>> = Seq::empty();
    proof {
        assert(counts_map(done) =~= Map::<Seq<char>, nat>::empty());
    }
    let title_toks = split_ws(doc.title.as_str());
    let ghost ta = lower_terms(doc.title@);
    let ghost tb = lower_terms(doc.author@);
    let ghost tc = doc@.tags.map_values(|t: TagView| lower_of(t.name));
    let mut i: usize = 0;
    while i < title_toks.len()
        invariant
            doc_terms(doc@).len() <= COUNT_CAP,
            all == doc_terms(doc@),
            ta == lower_terms(doc.title@),
            title_toks@.map_values(|t: String| t@) == tokens(doc.title@),
            i <= title_toks@.len(),
            title_toks@.len() == ta.len(),
            done == ta.take(i as int),
            v.wf(),
            v@ == counts_map(done),
            v.sum() == done.len(),
            v.key_seq().len() <= done.len(),
        decreases title_toks@.len() - i,
    {
        let term = lowercase(title_toks[i].as_str());
        proof {
            assert(ta[i as int] == lower_of(title_toks@[i as int]@));
            assert(all.len() >= ta.len());
            assert(done.len() < all.len());
            lemma_counts_map_push(done, term@);
            assert(done.push(term@) =~= ta.take(i + 1 as int));
        }
        v.bump(&term);
        proof {
            done = done.push(term@);
        }
        i += 1;
    }
    proof {
        assert(done =~= ta);
    }
    let author_toks = split_ws(doc.author.as_str());
    let mut i: usize = 0;
    while i < author_toks.len()
        invariant
            doc_terms(doc@).len() <= COUNT_CAP,
            all == doc_terms(doc@),
            ta == lower_terms(doc.title@),
            tb == lower_terms(doc.author@),
            author_toks@.map_values(|t: String| t@) == tokens(doc.author@),
            i <= author_toks@.len(),
            author_toks@.len() == tb.len(),
            done == ta + tb.take(i as int),
            v.wf(),
            v@ == counts_map(done),
            v.sum() == done.len(),
            v.key_seq().len() <= done.len(),
        decreases author_toks@.len() - i,
    {
        let term = lowercase(author_toks[i].as_str());
        proof {
            assert(tb[i as int] == lower_of(author_toks@[i as int]@));
            assert(all.len() >= ta.len() + tb.len());
            assert(done.len() < all.len());
            lemma_counts_map_push(done, term@);
            assert(done.push(term@) =~= ta + tb.take(i + 1 as int));
        }
        v.bump(&term);
        proof {
            done = done.push(term@);
        }
        i += 1;
    }
    proof {
        assert(done =~= ta + tb);
    }
    let mut i: usize = 0;
    while i < doc.tags.len()
        invariant
            doc_terms(doc@).len() <= COUNT_CAP,
            all == doc_terms(doc@),
            ta == lower_terms(doc.title@),
            tb == lower_terms(doc.author@),
            tc == doc@.tags.map_values(|t: TagView| lower_of(t.name)),
            i <= doc.tags@.len(),
            doc.tags@.len() == tc.len(),
            done == ta + tb + tc.take(i as int),
            v.wf(),
            v@ == counts_map(done),
            v.sum() == done.len(),
            v.key_seq().len() <= done.len(),
        decreases doc.tags@.len() - i,
    {
        let tag = &doc.tags[i];
        let term = lowercase(tag.name.as_str());
        proof {
            assert(doc@.tags[i as int] == doc.tags@[i as int]@);
            assert(tc[i as int] == lower_of(doc.tags@[i as int].name@));
            assert(all.len() >= ta.len() + tb.len() + tc.len());
            assert(done.len() < all.len());
            lemma_counts_map_push(done, term@);
            assert(done.push(term@) =~= ta + tb + tc.take(i + 1 as int));
        }
        v.bump(&term);
        proof {
            done = done.push(term@);
        }
        i += 1;
    }
    proof {
        assert(done =~= ta + tb + tc);
        assert(done.len() < all.len());
        lemma_counts_map_push(done, doc.year@);
        assert(done.push(doc.year@) =~= all);
    }
    v.bump(&doc.year);
    proof {
        done = done.push(doc.year@);
        assert(v@ == counts_map(all));
    }
    v
}

/// Turn the catalog into one padded term vector per document, in the same
/// order.  The result has the input's length, and the vector at `i` is the
/// document's raw frequency map padded against its neighbor's raw map (the
/// first document's for the last entry), so every key of the neighbor's raw
/// map appears, with count 0 where the document itself lacks the term.
pub fn vectorize_book(documents: &Vec<Book>) -> (r: Vec<TermVector>)
    requires
        forall|i: int|
            0 <= i < documents@.len() ==> doc_terms(#[trigger] documents@[i]@).len() <= COUNT_CAP,
    ensures
        r@.len() == documents@.len(),
        forall|i: int| 0 <= i < r@.len() ==> (#[trigger] r@[i]).wf(),
        forall|i: int|
            0 <= i < r@.len() ==> (#[trigger] r@[i])@ == padded_with(
                raw_map(documents@[i]@),
                raw_map(documents@[nbr_index(i, documents@.len() as int)]@),
            ),
        forall|i: int|
            0 <= i < r@.len() ==> (#[trigger] r@[i]).key_seq().len() <= doc_terms(
                documents@[i]@,
            ).len() + doc_terms(documents@[nbr_index(i, documents@.len() as int)]@).len(),
{
    let n = documents.len();
    let mut raws: Vec<TermVector> = Vec::new();
    let mut i: usize = 0;
    while i < n
        invariant
            n == documents@.len(),
            forall|j: int|
                0 <= j < documents@.len() ==> doc_terms(#[trigger] documents@[j]@).len()
                    <= COUNT_CAP,
            i <= n,
            raws@.len() == i,
            forall|j: int| 0 <= j < i ==> (#[trigger] raws@[j]).wf(),
            forall|j: int| 0 <= j < i ==> (#[trigger] raws@[j])@ == raw_map(documents@[j]@),
            forall|j: int|
                0 <= j < i ==> (#[trigger] raws@[j]).sum() == doc_terms(documents@[j]@).len(),
            forall|j: int|
                0 <= j < i ==> (#[trigger] raws@[j]).key_seq().len() <= doc_terms(
                    documents@[j]@,
                ).len(),
        decreases n - i,
    {
        let v = build_raw(&documents[i]);
        raws.push(v);
        i += 1;
    }
    let mut result: Vec<TermVector> = Vec::new();
    let mut i: usize = 0;
    while i < n
        invariant
            n == documents@.len(),
            n == raws@.len(),
            forall|j: int| 0 <= j < n ==> (#[trigger] raws@[j]).wf(),
            forall|j: int| 0 <= j < n ==> (#[trigger] raws@[j])@ == raw_map(documents@[j]@),
            forall|j: int|
                0 <= j < n ==> (#[trigger] raws@[j]).sum() == doc_terms(documents@[j]@).len(),
            forall|j: int|
                0 <= j < n ==> (#[trigger] raws@[j]).key_seq().len() <= doc_terms(
                    documents@[j]@,
                ).len(),
            i <= n,
            result@.len() == i,
            forall|j: int| 0 <= j < i ==> (#[trigger] result@[j]).wf(),
            forall|j: int|
                0 <= j < i ==> (#[trigger] result@[j])@ == padded_with(
                    raw_map(documents@[j]@),
                    raw_map(documents@[nbr_index(j, n as int)]@),
                ),
            forall|j: int|
                0 <= j < i ==> (#[trigger] result@[j]).key_seq().len() <= doc_terms(
                    documents@[j]@,
                ).len() + doc_terms(documents@[nbr_index(j, n as int)]@).len(),
        decreases n - i,
    {
        let nb_idx = if i + 1 < n {
            i + 1
        } else {
            0
        };
        let mut p = raws[i].duplicate();
        let ghost m = raws@[i as int]@;
        let ghost nb_keys = raws@[nb_idx as int].key_seq();
        let mut j: usize = 0;
        while j < raws[nb_idx].num_keys()
            invariant
                n == raws@.len(),
                i < n,
                nb_idx < n,
                forall|jj: int| 0 <= jj < n ==> (#[trigger] raws@[jj]).wf(),
                nb_keys == raws@[nb_idx as int].key_seq(),
                j <= nb_keys.len(),
                p.wf(),
                p@ == pad_keys(m, nb_keys.take(j as int)),
                p.key_seq().len() <= raws@[i as int].key_seq().len() + j,
            decreases nb_keys.len() - j,
        {
            let key = raws[nb_idx].key_at(j);
            proof {
                assert(nb_keys.take(j + 1 as int).drop_last() =~= nb_keys.take(j as int));
                assert(nb_keys.take(j + 1 as int).last() == nb_keys[j as int]);
            }
            p.pad_with(key);
            j += 1;
        }
        proof {
            assert(nb_keys.take(nb_keys.len() as int) =~= nb_keys);
            lemma_pad_keys_shape(m, nb_keys);
            raws@[nb_idx as int].lemma_wf_facts();
            let m2 = raws@[nb_idx as int]@;
            assert(pad_keys(m, nb_keys) =~= padded_with(m, m2));
            assert(nb_idx as int == nbr_index(i as int, n as int));
        }
        result.push(p);
        i += 1;
    }
    result
}


/// How many counts keyword `kw` adds to key `k` from the document vectors:
/// one per vector whose key set has `k` with `kw` as a substring of it.
pub open spec fn substr_hits(k: Seq<char>, kw: Seq<char>, vms: Seq<Map<Seq<char>, nat>>) -> nat
    decreases vms.len(),
{
    if vms.len() == 0 {
        0
    } else {
        substr_hits(k, kw, vms.drop_last()) + if vms.last().contains_key(k) && contains_seq(
            k,
            kw,
        ) {
            1nat
        } else {
            0nat
        }
    }
}

/// The count the query vector assigns to key `k`: one per keyword equal to
/// `k`, plus one per (keyword, document vector) pair where `k` is a key of
/// the vector containing the keyword as a substring.
pub open spec fn expand_count(
    k: Seq<char>,
    kws: Seq<Seq<char>>,
    vms: Seq<Map<Seq<char>, nat>>,
) -> nat
    decreases kws.len(),
{
    if kws.len() == 0 {
        0
    } else {
        expand_count(k, kws.drop_last(), vms) + (if k == kws.last() {
            1nat
        } else {
            0nat
        }) + substr_hits(k, kws.last(), vms)
    }
}

/// The query vector built from keywords `kws` against document vectors `vms`.
pub open spec fn expand_map(
    kws: Seq<Seq<char>>,
    vms: Seq<Map<Seq<char>, nat>>,
) -> Map<Seq<char>, nat> {
    Map::new(
        |k: Seq<char>| expand_count(k, kws, vms) > 0,
        |k: Seq<char>| expand_count(k, kws, vms),
    )
}

pub open spec fn vec_views(vs: Seq<TermVector>) -> Seq<Map<Seq<char>, nat>> {
    vs.map_values(|v: TermVector| v@)
}

/// Total number of keys across a sequence of vectors.
pub open spec fn total_keys(vs: Seq<TermVector>) -> nat
    decreases vs.len(),
{
    if vs.len() == 0 {
        0
    } else {
        (total_keys(vs.drop_last()) + vs.last().key_seq().len()) as nat
    }
}

proof fn lemma_total_keys_take_step(vs: Seq<TermVector>, v: int)
    requires
        0 <= v < vs.len(),
    ensures
        total_keys(vs.take(v + 1)) == total_keys(vs.take(v)) + vs[v].key_seq().len(),
{
    assert(vs.take(v + 1).drop_last() =~= vs.take(v));
    assert(vs.take(v + 1).last() == vs[v]);
}

proof fn lemma_total_keys_le(vs: Seq<TermVector>, v: int)
    requires
        0 <= v <= vs.len(),
    ensures
        total_keys(vs.take(v)) <= total_keys(vs),
    decreases vs.len(),
{
    if v == vs.len() {
        assert(vs.take(v) =~= vs);
    } else {
        assert(vs.take(v) =~= vs.drop_last().take(v));
        lemma_total_keys_le(vs.drop_last(), v);
    }
}

/// Count stored for `k`, or 0 when absent.
pub open spec fn cnt(m: Map<Seq<char>, nat>, k: Seq<char>) -> nat {
    if m.contains_key(k) {
        m[k]
    } else {
        0
    }
}

/// Expand the free-text query into a query vector.  Each keyword (lowercased
/// whitespace token of `words`) counts once for itself, and once more for
/// every key of every document vector that contains it as a substring.
pub fn vectorize_word(words: &str, vector_book: &Vec<TermVector>) -> (r: TermVector)
    requires
        forall|j: int| 0 <= j < vector_book@.len() ==> (#[trigger] vector_book@[j]).wf(),
        tokens(words@).len() * (1 + total_keys(vector_book@)) <= COUNT_CAP,
    ensures
        r.wf(),
        r@ == expand_map(lower_terms(words@), vec_views(vector_book@)),
        r.sum() <= tokens(words@).len() * (1 + total_keys(vector_book@)),
{
    let ghost kws = lower_terms(words@);
    let ghost vms = vec_views(vector_book@);
    let ghost kk: int = total_keys(vector_book@) as int;
    let toks = split_ws(words);
    let mut lows: Vec<String> = Vec::new();
    let mut i: usize = 0;
    while i < toks.len()
        invariant
            toks@.map_values(|t: String| t@) == tokens(words@),
            kws == lower_terms(words@),
            i <= toks@.len(),
            lows@.len() == i,
            forall|j: int| 0 <= j < i ==> (#[trigger] lows@[j])@ == kws[j],
        decreases toks@.len() - i,
    {
        let low = lowercase(toks[i].as_str());
        proof {
            assert(kws[i as int] == lower_of(toks@[i as int]@));
        }
        lows.push(low);
        i += 1;
    }
    let mut r = TermVector::new();
    let ghost ln: int = kws.len() as int;
    let mut j: usize = 0;
    while j < lows.len()
        invariant
            forall|jj: int| 0 <= jj < vector_book@.len() ==> (#[trigger] vector_book@[jj]).wf(),
            kws == lower_terms(words@),
            vms == vec_views(vector_book@),
            kk == total_keys(vector_book@),
            ln == kws.len(),
            ln * (1 + kk) <= COUNT_CAP,
            lows@.len() == kws.len(),
            forall|jj: int| 0 <= jj < lows@.len() ==> (#[trigger] lows@[jj])@ == kws[jj],
            j <= lows@.len(),
            r.wf(),
            r.sum() <= j * (1 + kk),
            forall|k: Seq<char>| #[trigger] cnt(r@, k) == expand_count(k, kws.take(j as int), vms),
            forall|k: Seq<char>| #[trigger] r@.contains_key(k) ==> r@[k] > 0,
        decreases lows@.len() - j,
    {
        let ghost done = kws.take(j as int);
        let ghost kw = kws[j as int];
        proof {
            assert(j * (1 + kk) + 1 + kk == (j + 1) * (1 + kk)) by (nonlinear_arith);
            assert((j + 1) * (1 + kk) <= ln * (1 + kk)) by (nonlinear_arith)
                requires
                    j + 1 <= ln,
                    kk >= 0,
            ;
        }
        let kw_string = lows[j].clone();
        let ghost r_prev = r;
        r.bump(&kw_string);
        proof {
            assert(kw_string@ == kw);
            assert(vms.take(0).len() == 0);
            assert forall|k: Seq<char>| #[trigger] cnt(r@, k) == expand_count(k, done, vms) + (
            if k == kw {
                1nat
            } else {
                0nat
            }) + substr_hits(k, kw, vms.take(0)) by {
                assert(cnt(r_prev@, k) == expand_count(k, done, vms));
                assert(r@ == bumped(r_prev@, kw_string@));
                if k == kw {
                    assert(cnt(r@, k) == cnt(r_prev@, k) + 1);
                } else {
                    assert(cnt(r@, k) == cnt(r_prev@, k));
                }
            }
        }
        let mut v: usize = 0;
        while v < vector_book.len()
            invariant
                forall|jj: int|
                    0 <= jj < vector_book@.len() ==> (#[trigger] vector_book@[jj]).wf(),
                vms == vec_views(vector_book@),
                kk == total_keys(vector_book@),
                ln * (1 + kk) <= COUNT_CAP,
                j < ln,
                done == kws.take(j as int),
                kw == kws[j as int],
                v <= vector_book@.len(),
                kw_string@ == kw,
                r.wf(),
                r.sum() <= j * (1 + kk) + 1 + total_keys(vector_book@.take(v as int)),
                forall|k: Seq<char>| #[trigger]
                    cnt(r@, k) == expand_count(k, done, vms) + (if k == kw {
                        1nat
                    } else {
                        0nat
                    }) + substr_hits(k, kw, vms.take(v as int)),
                forall|k: Seq<char>| #[trigger] r@.contains_key(k) ==> r@[k] > 0,
            decreases vector_book@.len() - v,
        {
            let vb = &vector_book[v];
            let ghost ks_v = vb.key_seq();
            let ghost m_v = vb@;
            proof {
                vb.lemma_wf_facts();
                lemma_total_keys_take_step(vector_book@, v as int);
                lemma_total_keys_le(vector_book@, v + 1 as int);
            }
            let mut t: usize = 0;
            while t < vb.num_keys()
                invariant
                    forall|jj: int|
                        0 <= jj < vector_book@.len() ==> (#[trigger] vector_book@[jj]).wf(),
                    vms == vec_views(vector_book@),
                    kk == total_keys(vector_book@),
                    ln * (1 + kk) <= COUNT_CAP,
                    j < ln,
                    done == kws.take(j as int),
                    kw == kws[j as int],
                    v < vector_book@.len(),
                    vb == vector_book@[v as int],
                    ks_v == vb.key_seq(),
                    m_v == vb@,
                    t <= ks_v.len(),
                    kw_string@ == kw,
                    total_keys(vector_book@.take(v as int)) + ks_v.len() == total_keys(
                        vector_book@.take(v + 1 as int),
                    ),
                    total_keys(vector_book@.take(v + 1 as int)) <= kk,
                    r.wf(),
                    r.sum() <= j * (1 + kk) + 1 + total_keys(vector_book@.take(v as int)) + t,
                    forall|k: Seq<char>| #[trigger]
                        cnt(r@, k) == expand_count(k, done, vms) + (if k == kw {
                            1nat
                        } else {
                            0nat
                        }) + substr_hits(k, kw, vms.take(v as int)) + (if ks_v.take(
                            t as int,
                        ).contains(k) && contains_seq(k, kw) {
                            1nat
                        } else {
                            0nat
                        }),
                    forall|k: Seq<char>| #[trigger] r@.contains_key(k) ==> r@[k] > 0,
                decreases ks_v.len() - t,
            {
                let key = vb.key_at(t);
                proof {
                    vb.lemma_wf_facts();
                    assert(ks_v.take(t + 1 as int) =~= ks_v.take(t as int).push(ks_v[t as int]));
                    assert(!ks_v.take(t as int).contains(ks_v[t as int])) by {
                        if ks_v.take(t as int).contains(ks_v[t as int]) {
                            let jj = choose|jj: int|
                                0 <= jj < t && ks_v.take(t as int)[jj] == ks_v[t as int];
                            assert(ks_v[jj] == ks_v[t as int]);
                        }
                    }
                    assert forall|k: Seq<char>|
                        #![trigger ks_v.take(t + 1 as int).contains(k)]
                        ks_v.take(t + 1 as int).contains(k) <==> (ks_v.take(t as int).contains(k)
                            || k == ks_v[t as int]) by {
                        let t1 = ks_v.take(t + 1 as int);
                        let t0 = ks_v.take(t as int);
                        if t1.contains(k) {
                            let jj = choose|jj: int| 0 <= jj < t1.len() && t1[jj] == k;
                            if jj < t as int {
                                assert(t0[jj] == k);
                            }
                        }
                        if t0.contains(k) {
                            let jj = choose|jj: int| 0 <= jj < t0.len() && t0[jj] == k;
                            assert(t1[jj] == k);
                        }
                        if k == ks_v[t as int] {
                            assert(t1[t as int] == k);
                        }
                    }
                }
                if contains_sub(key.as_str(), kw_string.as_str()) {
                    let key_copy = key.clone();
                    proof {
                        assert(r.sum() + 1 <= COUNT_CAP) by {
                            assert(total_keys(vector_book@.take(v as int)) + t + 1 <= kk);
                            assert(j * (1 + kk) + 1 + kk <= ln * (1 + kk)) by (nonlinear_arith)
                                requires
                                    j + 1 <= ln,
                                    kk >= 0,
                            ;
                        }
                    }
                    let ghost r_prev = r;
                    r.bump(&key_copy);
                    proof {
                        assert(key_copy@ == ks_v[t as int]);
                        assert(m_v.contains_key(key_copy@));
                        assert(contains_seq(key_copy@, kw));
                        assert forall|k: Seq<char>| #[trigger]
                            cnt(r@, k) == expand_count(k, done, vms) + (if k == kw {
                                1nat
                            } else {
                                0nat
                            }) + substr_hits(k, kw, vms.take(v as int)) + (if ks_v.take(
                            t + 1 as int,
                        ).contains(k) && contains_seq(k, kw) {
                            1nat
                        } else {
                            0nat
                        }) by {
                            assert(cnt(r_prev@, k) == expand_count(k, done, vms) + (if k == kw {
                                1nat
                            } else {
                                0nat
                            }) + substr_hits(k, kw, vms.take(v as int)) + (if ks_v.take(
                                t as int,
                            ).contains(k) && contains_seq(k, kw) {
                                1nat
                            } else {
                                0nat
                            }));
                            assert(r@ == bumped(r_prev@, key_copy@));
                            if k == key_copy@ {
                                assert(cnt(r@, k) == cnt(r_prev@, k) + 1);
                            } else {
                                assert(cnt(r@, k) == cnt(r_prev@, k));
                            }
                            assert(ks_v.take(t + 1 as int).contains(k) <==> (ks_v.take(
                                t as int,
                            ).contains(k) || k == ks_v[t as int]));
                        }
                    }
                } else {
                    proof {
                        assert forall|k: Seq<char>| #[trigger]
                            cnt(r@, k) == expand_count(k, done, vms) + (if k == kw {
                                1nat
                            } else {
                                0nat
                            }) + substr_hits(k, kw, vms.take(v as int)) + (if ks_v.take(
                            t + 1 as int,
                        ).contains(k) && contains_seq(k, kw) {
                            1nat
                        } else {
                            0nat
                        }) by {
                            assert(cnt(r@, k) == expand_count(k, done, vms) + (if k == kw {
                                1nat
                            } else {
                                0nat
                            }) + substr_hits(k, kw, vms.take(v as int)) + (if ks_v.take(
                                t as int,
                            ).contains(k) && contains_seq(k, kw) {
                                1nat
                            } else {
                                0nat
                            }));
                            assert(ks_v.take(t + 1 as int).contains(k) <==> (ks_v.take(
                                t as int,
                            ).contains(k) || k == ks_v[t as int]));
                            if k == ks_v[t as int] {
                                assert(key@ == ks_v[t as int]);
                                assert(!contains_seq(k, kw));
                            }
                        }
                    }
                }
                t += 1;
            }
            proof {
                assert(ks_v.take(ks_v.len() as int) =~= ks_v);
                assert(vms.take(v + 1 as int).drop_last() =~= vms.take(v as int));
                assert(vms.take(v + 1 as int).last() == vms[v as int]);
                assert(vms[v as int] == m_v);
                assert forall|k: Seq<char>| #[trigger]
                    cnt(r@, k) == expand_count(k, done, vms) + (if k == kw {
                        1nat
                    } else {
                        0nat
                    }) + substr_hits(k, kw, vms.take(v + 1 as int)) by {
                    assert(ks_v.contains(k) <==> m_v.contains_key(k));
                    assert(cnt(r@, k) == expand_count(k, done, vms) + (if k == kw {
                        1nat
                    } else {
                        0nat
                    }) + substr_hits(k, kw, vms.take(v as int)) + (if ks_v.take(
                        ks_v.len() as int,
                    ).contains(k) && contains_seq(k, kw) {
                        1nat
                    } else {
                        0nat
                    }));
                }
            }
            v += 1;
        }
        proof {
            assert(vms.take(vector_book@.len() as int) =~= vms);
            assert(vector_book@.take(vector_book@.len() as int) =~= vector_book@);
            assert(kws.take(j + 1 as int).drop_last() =~= kws.take(j as int));
            assert(kws.take(j + 1 as int).last() == kws[j as int]);
            assert forall|k: Seq<char>| #[trigger]
                cnt(r@, k) == expand_count(k, kws.take(j + 1 as int), vms) by {
                assert(cnt(r@, k) == expand_count(k, done, vms) + (if k == kw {
                    1nat
                } else {
                    0nat
                }) + substr_hits(k, kw, vms.take(vector_book@.len() as int)));
            }
            assert(r.sum() <= (j + 1) * (1 + kk)) by (nonlinear_arith)
                requires
                    r.sum() <= j * (1 + kk) + 1 + kk,
                    kk >= 0,
                    j >= 0,
            ;
        }
        j += 1;
    }
    proof {
        assert(kws.take(lows@.len() as int) =~= kws);
        assert forall|k: Seq<char>| #[trigger] r@.contains_key(k) <==> expand_map(kws, vms)
            .contains_key(k) by {
            assert(cnt(r@, k) == expand_count(k, kws, vms));
        }
        assert forall|k: Seq<char>| r@.contains_key(k) implies r@[k] == expand_map(kws, vms)[k] by {
            assert(cnt(r@, k) == expand_count(k, kws, vms));
        }
        assert(r@ =~= expand_map(kws, vms));
        assert(r.sum() <= ln * (1 + kk)) by (nonlinear_arith)
            requires
                r.sum() <= ln * (1 + kk),
        ;
    }
    r
}


/// The exact cosine-similarity score of two term maps.
pub open spec fn cos_score(m1: Map<Seq<char>, nat>, m2: Map<Seq<char>, nat>) -> Score {
    Score {
        dot: dot_spec(m1, m2) as u64,
        qnorm_sq: norm_sq_spec(m1) as u64,
        dnorm_sq: norm_sq_spec(m2) as u64,
    }
}

/// Cosine similarity of two vectors, as an exact score: the dot product and
/// the two squared norms.  The value it denotes is
/// `dot / sqrt(qnorm_sq * dnorm_sq)`, with 0 when either norm is 0.
pub fn cosine_similarity(vec1: &TermVector, vec2: &TermVector) -> (s: Score)
    requires
        vec1.wf(),
        vec2.wf(),
    ensures
        s == cos_score(vec1@, vec2@),
        s.dot as nat == dot_spec(vec1@, vec2@),
        s.qnorm_sq as nat == norm_sq_spec(vec1@),
        s.dnorm_sq as nat == norm_sq_spec(vec2@),
        score_wf(s),
{
    let d = dot(vec1, vec2);
    let q = norm_sq(vec1);
    let n = norm_sq(vec2);
    Score { dot: d, qnorm_sq: q, dnorm_sq: n }
}

/// Law: a vector of nonzero magnitude has cosine similarity exactly 1 with
/// itself; the score's numerator is positive and its square equals the
/// squared denominator, so the value `dot / sqrt(q * d)` is exactly 1.
pub proof fn lemma_cosine_self(m: Map<Seq<char>, nat>)
    requires
        m.dom().finite(),
        values_total(m) <= COUNT_CAP,
        norm_sq_spec(m) > 0,
    ensures
        score_pos(cos_score(m, m)),
        score_num(cos_score(m, m)) * score_num(cos_score(m, m)) == crate::score::score_den(
            cos_score(m, m),
        ),
{
    lemma_dot_self_is_norm_sq(m);
    lemma_dot_bound(m, m);
    let s = cos_score(m, m);
    assert(s.dot as nat == norm_sq_spec(m));
    assert(s.dot > 0);
}

/// Law: the cosine similarity is exactly 0 whenever either vector has zero
/// magnitude or the two vectors share no keys.
pub proof fn lemma_cosine_zero(m1: Map<Seq<char>, nat>, m2: Map<Seq<char>, nat>)
    requires
        m1.dom().finite(),
        m2.dom().finite(),
        values_total(m1) <= COUNT_CAP,
        values_total(m2) <= COUNT_CAP,
        norm_sq_spec(m1) == 0 || norm_sq_spec(m2) == 0 || m1.dom().disjoint(m2.dom()),
    ensures
        !score_pos(cos_score(m1, m2)),
        score_num(cos_score(m1, m2)) == 0,
{
    lemma_dot_bound(m1, m2);
    let s = cos_score(m1, m2);
    if norm_sq_spec(m1) == 0 || norm_sq_spec(m2) == 0 {
        assert(s.qnorm_sq == 0 || s.dnorm_sq == 0);
    } else {
        crate::summation::lemma_map_sum_zero(
            m1,
            |k: Seq<char>, c: nat|
                if m2.contains_key(k) {
                    c * m2[k]
                } else {
                    0
                },
        );
        assert(s.dot == 0);
    }
}

/// One ranked hit: a document together with its similarity score.
pub struct SearchResult {
    pub book: Book,
    pub score: Score,
}

#[verifier::ext_equal]
pub ghost struct SearchResultView {
    pub book: BookView,
    pub score: Score,
}

impl View for SearchResult {
    type V = SearchResultView;

    open spec fn view(&self) -> SearchResultView {
        SearchResultView { book: self.book@, score: self.score }
    }
}

/// The catalog store could not be reached.
#[derive(Clone, Copy, Debug, PartialEq, Eq, Structural)]
pub struct StoreError {}

/// Why a search resolved with a failure instead of a (possibly empty) list.
#[derive(Clone, Copy, Debug, PartialEq, Eq, Structural)]
pub enum SearchError {
    /// The catalog fetch failed; propagated unchanged, never downgraded to an
    /// empty success.
    StoreUnavailable,
    /// The unit of work could not be scheduled or died before completing.
    WorkerPoolFailure,
}


pub open spec fn doc_views(docs: Seq<Book>) -> Seq<BookView> {
    docs.map_values(|b: Book| b@)
}

/// A scored index as the ranker carries it: the index is in range and the
/// score is exactly the cosine score of the query against that vector.
pub open spec fn scored_entry(e: (usize, Score), qm: Map<Seq<char>, nat>, vms: Seq<Map<Seq<char>, nat>>) -> bool {
    &&& (e.0 as int) < vms.len()
    &&& e.1 == cos_score(qm, vms[e.0 as int])
    &&& score_wf(e.1)
}

/// What `rank` guarantees, witnessed by the sequence `idxs` of surviving
/// document indices: the results pair each surviving index's document with
/// its exact cosine score; every score is strictly positive; indices never
/// repeat; every document whose score is positive survives; and the results
/// are sorted by ascending score.
pub open spec fn rank_witness(
    qm: Map<Seq<char>, nat>,
    vms: Seq<Map<Seq<char>, nat>>,
    docs: Seq<BookView>,
    res: Seq<SearchResultView>,
    idxs: Seq<int>,
) -> bool {
    &&& idxs.len() == res.len()
    &&& forall|p: int| 0 <= p < idxs.len() ==> 0 <= #[trigger] idxs[p] < docs.len()
    &&& forall|p: int| 0 <= p < res.len() ==> (#[trigger] res[p]).book == docs[idxs[p]]
    &&& forall|p: int|
        0 <= p < res.len() ==> (#[trigger] res[p]).score == cos_score(qm, vms[idxs[p]])
    &&& forall|p: int| 0 <= p < res.len() ==> score_pos((#[trigger] res[p]).score)
    &&& forall|p: int, q: int| 0 <= p < q < idxs.len() ==> idxs[p] != idxs[q]
    &&& forall|i: int|
        0 <= i < vms.len() && score_pos(cos_score(qm, #[trigger] vms[i])) ==> idxs.contains(i)
    &&& forall|p: int, q: int|
        0 <= p <= q < res.len() ==> score_le((#[trigger] res[p]).score, (#[trigger] res[q]).score)
}

/// The ranked result is correct for some choice of surviving indices.
pub open spec fn rank_post(
    qm: Map<Seq<char>, nat>,
    vms: Seq<Map<Seq<char>, nat>>,
    docs: Seq<BookView>,
    res: Seq<SearchResultView>,
) -> bool {
    exists|idxs: Seq<int>| #[trigger] rank_witness(qm, vms, docs, res, idxs)
}

/// Index `ii` occurs as the document index of some entry of `s`.
pub open spec fn appears(s: Seq<(usize, Score)>, ii: int) -> bool {
    exists|q: int| 0 <= q < s.len() && (#[trigger] s[q]).0 == ii
}

/// Position `q` was recorded in `srcs`.
pub open spec fn picked(srcs: Seq<int>, q: int) -> bool {
    exists|t: int| 0 <= t < srcs.len() && #[trigger] srcs[t] == q
}


/// Law: a query whose text has no keywords contributes nothing.  Its query
/// vector is empty, so it has zero magnitude, every score's numerator is 0,
/// and a ranking against it keeps no document.
pub proof fn lemma_empty_query_rank_empty(
    q: Seq<char>,
    vms: Seq<Map<Seq<char>, nat>>,
    docs: Seq<BookView>,
    res: Seq<SearchResultView>,
)
    requires
        tokens(q).len() == 0,
        rank_post(expand_map(lower_terms(q), vms), vms, docs, res),
    ensures
        res.len() == 0,
{
    let qm = expand_map(lower_terms(q), vms);
    assert(lower_terms(q).len() == 0);
    assert forall|k: Seq<char>| !(#[trigger] qm.contains_key(k)) by {
        assert(expand_count(k, lower_terms(q), vms) == 0);
    }
    assert(qm.dom() =~= Set::<Seq<char>>::empty());
    assert(norm_sq_spec(qm) == 0);
    let idxs = choose|idxs: Seq<int>| rank_witness(qm, vms, docs, res, idxs);
    if res.len() > 0 {
        assert(score_pos(res[0].score));
        assert(res[0].score == cos_score(qm, vms[idxs[0]]));
        assert(res[0].score.qnorm_sq == 0);
        assert(score_num(res[0].score) == 0);
    }
}

/// Where a score belongs in an ascending run: the first position whose score
/// is not below it.
fn insert_pos(sorted: &Vec<(usize, Score)>, sc: &Score) -> (pos: usize)
    requires
        score_wf(*sc),
        forall|p: int|
            0 <= p < sorted@.len() ==> score_wf((#[trigger] sorted@[p]).1) && sorted@[p].1.qnorm_sq
                == sc.qnorm_sq,
    ensures
        pos <= sorted@.len(),
        forall|p: int| 0 <= p < pos ==> score_le((#[trigger] sorted@[p]).1, *sc),
        pos < sorted@.len() ==> score_le(*sc, sorted@[pos as int].1),
{
    let mut p: usize = 0;
    while p < sorted.len()
        invariant
            score_wf(*sc),
            forall|q: int|
                0 <= q < sorted@.len() ==> score_wf((#[trigger] sorted@[q]).1) && sorted@[
                    q
                ].1.qnorm_sq == sc.qnorm_sq,
            p <= sorted@.len(),
            forall|q: int| 0 <= q < p ==> score_le((#[trigger] sorted@[q]).1, *sc),
        decreases sorted@.len() - p,
    {
        if !score_le_exec(&sorted[p].1, sc) {
            proof {
                lemma_score_le_total(sorted@[p as int].1, *sc);
            }
            return p;
        }
        p += 1;
    }
    p
}

/// Score every document vector against the query vector, sort ascending by
/// score, keep only strictly positive scores, and attach the documents by
/// their pre-filter index.
pub fn rank(query_vec: &TermVector, vectors: &Vec<TermVector>, documents: &Vec<Book>) -> (r: Vec<
    SearchResult,
>)
    requires
        query_vec.wf(),
        vectors@.len() == documents@.len(),
        forall|i: int| 0 <= i < vectors@.len() ==> (#[trigger] vectors@[i]).wf(),
    ensures
        rank_post(
            query_vec@,
            vec_views(vectors@),
            doc_views(documents@),
            r@.map_values(|e: SearchResult| e@),
        ),
{
    let ghost qm = query_vec@;
    let ghost vms = vec_views(vectors@);
    let n = vectors.len();
    let mut scored: Vec<(usize, Score)> = Vec::new();
    let mut i: usize = 0;
    while i < n
        invariant
            n == vectors@.len(),
            vectors@.len() == documents@.len(),
            query_vec.wf(),
            forall|j: int| 0 <= j < vectors@.len() ==> (#[trigger] vectors@[j]).wf(),
            qm == query_vec@,
            vms == vec_views(vectors@),
            i <= n,
            scored@.len() == i,
            forall|p: int| 0 <= p < i ==> (#[trigger] scored@[p]).0 == p,
            forall|p: int| 0 <= p < i ==> scored_entry(#[trigger] scored@[p], qm, vms),
        decreases n - i,
    {
        let sc = cosine_similarity(query_vec, &vectors[i]);
        scored.push((i, sc));
        i += 1;
    }
    let mut sorted: Vec<(usize, Score)> = Vec::new();
    let mut i: usize = 0;
    while i < scored.len()
        invariant
            n == vectors@.len(),
            vectors@.len() == documents@.len(),
            vms == vec_views(vectors@),
            scored@.len() == n,
            forall|p: int| 0 <= p < n ==> (#[trigger] scored@[p]).0 == p,
            forall|p: int| 0 <= p < n ==> scored_entry(#[trigger] scored@[p], qm, vms),
            i <= n,
            sorted@.len() == i,
            forall|p: int| 0 <= p < i ==> (#[trigger] sorted@[p]).0 < i,
            forall|p: int| 0 <= p < i ==> scored_entry(#[trigger] sorted@[p], qm, vms),
            forall|p: int, q: int| 0 <= p < q < i ==> sorted@[p].0 != sorted@[q].0,
            forall|ii: int| 0 <= ii < i ==> #[trigger] appears(sorted@, ii),
            forall|p: int, q: int|
                0 <= p <= q < i ==> score_le((#[trigger] sorted@[p]).1, (#[trigger] sorted@[q]).1),
        decreases scored@.len() - i,
    {
        let item = scored[i];
        proof {
            assert(scored_entry(item, qm, vms));
        }
        let pos = insert_pos(&sorted, &item.1);
        let ghost before = sorted@;
        sorted.insert(pos, item);
        proof {
            before.insert_ensures(pos as int, item);
            assert(sorted@ == before.insert(pos as int, item));
            assert forall|p: int, q: int| 0 <= p <= q < sorted@.len() implies score_le(
                (#[trigger] sorted@[p]).1,
                (#[trigger] sorted@[q]).1,
            ) by {
                if p == q {
                    lemma_score_le_total(sorted@[p].1, sorted@[p].1);
                } else if q == pos as int {
                    if p < pos as int {
                        assert(sorted@[p] == before[p]);
                        assert(score_le(before[p].1, item.1));
                    }
                } else if p == pos as int {
                    assert(sorted@[q] == before[q - 1]);
                    assert(q - 1 >= pos as int);
                    if q - 1 == pos as int {
                        assert(score_le(item.1, before[pos as int].1));
                    } else {
                        assert(score_le(item.1, before[pos as int].1));
                        assert(score_le(before[pos as int].1, before[q - 1].1));
                        lemma_score_le_trans(item.1, before[pos as int].1, before[q - 1].1);
                    }
                } else {
                    let pp = if p < pos as int { p } else { p - 1 };
                    let qq = if q < pos as int { q } else { q - 1 };
                    assert(sorted@[p] == before[pp]);
                    assert(sorted@[q] == before[qq]);
                    assert(score_le(before[pp].1, before[qq].1));
                }
            }
            assert forall|ii: int| 0 <= ii < i + 1 implies #[trigger] appears(sorted@, ii) by {
                if ii == i as int {
                    assert(sorted@[pos as int].0 == ii);
                } else {
                    assert(appears(before, ii));
                    let q0 = choose|q: int| 0 <= q < before.len() && (#[trigger] before[q]).0 == ii;
                    let q1 = if q0 < pos as int {
                        q0
                    } else {
                        q0 + 1
                    };
                    assert(sorted@[q1].0 == ii);
                }
            }
            assert forall|p: int, q: int| 0 <= p < q < sorted@.len() implies sorted@[p].0
                != sorted@[q].0 by {
                let pp = if p < pos as int {
                    p
                } else if p == pos as int {
                    -1
                } else {
                    p - 1
                };
                let qq = if q < pos as int {
                    q
                } else if q == pos as int {
                    -1
                } else {
                    q - 1
                };
                if pp >= 0 {
                    assert(sorted@[p] == before[pp]);
                }
                if qq >= 0 {
                    assert(sorted@[q] == before[qq]);
                }
                if pp == -1 {
                    assert(sorted@[p].0 == i);
                    assert(before[qq].0 < i);
                } else if qq == -1 {
                    assert(sorted@[q].0 == i);
                    assert(before[pp].0 < i);
                }
            }
        }
        i += 1;
    }
    let ghost docs_v = doc_views(documents@);
    let mut out: Vec<SearchResult> = Vec::new();
    let ghost mut idxs: Seq<int> = Seq::empty();
    let ghost mut srcs: Seq<int> = Seq::empty();
    let mut p: usize = 0;
    while p < sorted.len()
        invariant
            n == vectors@.len(),
            vectors@.len() == documents@.len(),
            vms == vec_views(vectors@),
            docs_v == doc_views(documents@),
            sorted@.len() == n,
            forall|q: int| 0 <= q < n ==> scored_entry(#[trigger] sorted@[q], qm, vms),
            forall|q1: int, q2: int| 0 <= q1 < q2 < n ==> sorted@[q1].0 != sorted@[q2].0,
            forall|ii: int| 0 <= ii < n ==> #[trigger] appears(sorted@, ii),
            forall|q1: int, q2: int|
                0 <= q1 <= q2 < n ==> score_le(
                    (#[trigger] sorted@[q1]).1,
                    (#[trigger] sorted@[q2]).1,
                ),
            p <= n,
            out@.len() == idxs.len(),
            srcs.len() == idxs.len(),
            forall|t: int| 0 <= t < srcs.len() ==> 0 <= #[trigger] srcs[t] < p,
            forall|t1: int, t2: int| 0 <= t1 < t2 < srcs.len() ==> srcs[t1] < srcs[t2],
            forall|t: int|
                0 <= t < srcs.len() ==> #[trigger] idxs[t] == sorted@[srcs[t]].0 as int,
            forall|t: int|
                0 <= t < out@.len() ==> (#[trigger] out@[t]).score == sorted@[srcs[t]].1,
            forall|t: int|
                0 <= t < out@.len() ==> (#[trigger] out@[t]).book@ == docs_v[idxs[t]],
            forall|t: int| 0 <= t < out@.len() ==> score_pos((#[trigger] out@[t]).score),
            forall|q: int|
                0 <= q < p && score_pos((#[trigger] sorted@[q]).1) ==> picked(srcs, q),
        decreases sorted@.len() - p,
    {
        let e = sorted[p];
        if score_positive(&e.1) {
            proof {
                assert(scored_entry(e, qm, vms));
            }
            let b = &documents[e.0];
            out.push(SearchResult { book: b.clone(), score: e.1 });
            proof {
                let srcs_prev = srcs;
                idxs = idxs.push(e.0 as int);
                srcs = srcs.push(p as int);
                assert forall|q: int|
                    0 <= q < p + 1 && score_pos((#[trigger] sorted@[q]).1) implies picked(
                    srcs,
                    q,
                ) by {
                    if q == p as int {
                        assert(srcs[srcs.len() - 1] == q);
                    } else {
                        assert(picked(srcs_prev, q));
                        let t = choose|t: int| 0 <= t < srcs_prev.len() && #[trigger] srcs_prev[t]
                            == q;
                        assert(srcs[t] == q);
                    }
                }
            }
        } else {
            proof {
                assert(!score_pos(sorted@[p as int].1));
            }
        }
        p += 1;
    }
    proof {
        let res = out@.map_values(|e: SearchResult| e@);
        assert forall|t: int| 0 <= t < res.len() implies (#[trigger] res[t]).book == docs_v[idxs[t]]
            && res[t].score == cos_score(qm, vms[idxs[t]]) && score_pos(res[t].score) by {
            assert(res[t] == out@[t]@);
            assert(idxs[t] == sorted@[srcs[t]].0 as int);
            assert(scored_entry(sorted@[srcs[t]], qm, vms));
        }
        assert forall|t: int| 0 <= t < idxs.len() implies 0 <= #[trigger] idxs[t]
            < docs_v.len() by {
            assert(scored_entry(sorted@[srcs[t]], qm, vms));
        }
        assert forall|t1: int, t2: int| 0 <= t1 < t2 < idxs.len() implies idxs[t1] != idxs[t2] by {
            assert(srcs[t1] < srcs[t2]);
            assert(sorted@[srcs[t1]].0 != sorted@[srcs[t2]].0);
        }
        assert forall|i0: int|
            0 <= i0 < vms.len() && score_pos(cos_score(qm, #[trigger] vms[i0])) implies idxs
            .contains(i0) by {
            assert(appears(sorted@, i0));
            let q = choose|q: int| 0 <= q < sorted@.len() && (#[trigger] sorted@[q]).0 == i0;
            assert(scored_entry(sorted@[q], qm, vms));
            assert(score_pos(sorted@[q].1));
            assert(picked(srcs, q));
            let t = choose|t: int| 0 <= t < srcs.len() && #[trigger] srcs[t] == q;
            assert(idxs[t] == i0);
        }
        assert forall|t1: int, t2: int| 0 <= t1 <= t2 < res.len() implies score_le(
            (#[trigger] res[t1]).score,
            (#[trigger] res[t2]).score,
        ) by {
            assert(res[t1].score == sorted@[srcs[t1]].1);
            assert(res[t2].score == sorted@[srcs[t2]].1);
            if t1 < t2 {
                assert(srcs[t1] < srcs[t2]);
            }
            assert(score_le(sorted@[srcs[t1]].1, sorted@[srcs[t2]].1));
        }
        assert(rank_witness(qm, vms, docs_v, res, idxs));
    }
    out
}


/// Total number of terms of the documents from index `lo` on.
pub open spec fn total_doc_terms(docs: Seq<Book>, lo: int) -> nat
    decreases docs.len() - lo,
{
    if 0 <= lo < docs.len() {
        doc_terms(docs[lo]@).len() + total_doc_terms(docs, lo + 1)
    } else {
        0
    }
}

/// Total number of terms of the right neighbors (cyclically) of the
/// documents from index `lo` on.
pub open spec fn nbr_terms_from(docs: Seq<Book>, lo: int) -> nat
    decreases docs.len() - lo,
{
    if 0 <= lo < docs.len() {
        doc_terms(docs[nbr_index(lo, docs.len() as int)]@).len() + nbr_terms_from(docs, lo + 1)
    } else {
        0
    }
}

/// Total number of keys of the vectors from index `lo` on.
pub open spec fn keys_from(vs: Seq<TermVector>, lo: int) -> nat
    decreases vs.len() - lo,
{
    if 0 <= lo < vs.len() {
        (vs[lo].key_seq().len() + keys_from(vs, lo + 1)) as nat
    } else {
        0
    }
}

proof fn lemma_keys_from_drop(vs: Seq<TermVector>, lo: int)
    requires
        vs.len() > 0,
        0 <= lo <= vs.len() - 1,
    ensures
        keys_from(vs, lo) == keys_from(vs.drop_last(), lo) + vs.last().key_seq().len(),
    decreases vs.len() - lo,
{
    let dl = vs.drop_last();
    if lo == vs.len() - 1 {
        assert(keys_from(vs, lo) == vs[lo].key_seq().len() + keys_from(vs, lo + 1));
        assert(keys_from(vs, lo + 1) == 0);
        assert(keys_from(dl, lo) == 0);
    } else {
        lemma_keys_from_drop(vs, lo + 1);
        assert(dl[lo] == vs[lo]);
        assert(keys_from(vs, lo) == vs[lo].key_seq().len() + keys_from(vs, lo + 1));
        assert(keys_from(dl, lo) == dl[lo].key_seq().len() + keys_from(dl, lo + 1));
    }
}

proof fn lemma_total_keys_is_keys_from(vs: Seq<TermVector>)
    ensures
        total_keys(vs) == keys_from(vs, 0),
    decreases vs.len(),
{
    if vs.len() > 0 {
        lemma_total_keys_is_keys_from(vs.drop_last());
        lemma_keys_from_drop(vs, 0);
    }
}

proof fn lemma_nbr_terms_cyclic(docs: Seq<Book>, lo: int)
    requires
        0 <= lo < docs.len(),
    ensures
        nbr_terms_from(docs, lo) == total_doc_terms(docs, lo + 1) + doc_terms(docs[0]@).len(),
    decreases docs.len() - lo,
{
    let n = docs.len() as int;
    assert(nbr_terms_from(docs, lo) == doc_terms(docs[nbr_index(lo, n)]@).len() + nbr_terms_from(
        docs,
        lo + 1,
    ));
    if lo == docs.len() - 1 {
        assert(nbr_index(lo, n) == 0);
        assert(nbr_terms_from(docs, lo + 1) == 0);
        assert(total_doc_terms(docs, lo + 1) == 0);
    } else {
        lemma_nbr_terms_cyclic(docs, lo + 1);
        assert(nbr_index(lo, n) == lo + 1);
        assert(total_doc_terms(docs, lo + 1) == doc_terms(docs[lo + 1]@).len()
            + total_doc_terms(docs, lo + 2));
    }
}

proof fn lemma_keys_from_bound(vs: Seq<TermVector>, docs: Seq<Book>, lo: int)
    requires
        vs.len() == docs.len(),
        forall|i: int|
            0 <= i < vs.len() ==> (#[trigger] vs[i]).key_seq().len() <= doc_terms(docs[i]@).len()
                + doc_terms(docs[nbr_index(i, docs.len() as int)]@).len(),
        0 <= lo,
    ensures
        keys_from(vs, lo) <= total_doc_terms(docs, lo) + nbr_terms_from(docs, lo),
    decreases vs.len() - lo,
{
    if lo < vs.len() {
        lemma_keys_from_bound(vs, docs, lo + 1);
    }
}

/// The total key count of the padded vectors is at most twice the total term
/// count of the documents.
proof fn lemma_total_keys_twice(vs: Seq<TermVector>, docs: Seq<Book>)
    requires
        vs.len() == docs.len(),
        forall|i: int|
            0 <= i < vs.len() ==> (#[trigger] vs[i]).key_seq().len() <= doc_terms(docs[i]@).len()
                + doc_terms(docs[nbr_index(i, docs.len() as int)]@).len(),
    ensures
        total_keys(vs) <= 2 * total_doc_terms(docs, 0),
{
    lemma_total_keys_is_keys_from(vs);
    lemma_keys_from_bound(vs, docs, 0);
    if docs.len() > 0 {
        lemma_nbr_terms_cyclic(docs, 0);
    }
}

/// The inputs a search call can serve with exact integer arithmetic: every
/// document contributes at most `COUNT_CAP` terms, and the query expansion
/// budget (one count per keyword plus one per keyword and vector key) fits
/// under `COUNT_CAP` as well.
pub open spec fn search_within_limits(docs: Seq<Book>, q: Seq<char>) -> bool {
    &&& forall|i: int| 0 <= i < docs.len() ==> doc_terms(#[trigger] docs[i]@).len() <= COUNT_CAP
    &&& tokens(q).len() * (1 + 2 * total_doc_terms(docs, 0)) <= COUNT_CAP
}

/// The padded term maps of the catalog, in document order.
pub open spec fn padded_maps(docs: Seq<Book>) -> Seq<Map<Seq<char>, nat>> {
    Seq::new(
        docs.len(),
        |i: int|
            padded_with(
                raw_map(docs[i]@),
                raw_map(docs[nbr_index(i, docs.len() as int)]@),
            ),
    )
}

/// Decide `search_within_limits` for concrete inputs.
pub fn search_within_limits_check(documents: &Vec<Book>, keyword: &str) -> (ok: bool)
    ensures
        ok == search_within_limits(documents@, keyword@),
{
    let n = documents.len();
    let mut total: u128 = 0;
    let mut i: usize = 0;
    while i < n
        invariant
            n == documents@.len(),
            i <= n,
            forall|j: int| 0 <= j < i ==> doc_terms(#[trigger] documents@[j]@).len() <= COUNT_CAP,
            total + total_doc_terms(documents@, i as int) == total_doc_terms(documents@, 0),
            total <= i * (COUNT_CAP as int),
        decreases n - i,
    {
        let doc = &documents[i];
        let t = split_ws(doc.title.as_str()).len();
        let a = split_ws(doc.author.as_str()).len();
        let c = doc.tags.len();
        proof {
            assert(doc_terms(documents@[i as int]@).len() == tokens(doc.title@).len() + tokens(
                doc.author@,
            ).len() + doc.tags@.len() + 1);
        }
        if t as u64 > COUNT_CAP || a as u64 > COUNT_CAP || c as u64 > COUNT_CAP {
            return false;
        }
        let terms_i: u64 = t as u64 + a as u64 + c as u64 + 1;
        if terms_i > COUNT_CAP {
            return false;
        }
        proof {
            assert(i * (COUNT_CAP as int) + COUNT_CAP == (i + 1) * (COUNT_CAP as int))
                by (nonlinear_arith);
            assert(i * (COUNT_CAP as int) <= 0xffffffffffffffffu128 * (COUNT_CAP as int))
                by (nonlinear_arith)
                requires
                    0 <= i <= 0xffffffffffffffffu128,
            ;
        }
        total = total + terms_i as u128;
        i += 1;
    }
    let q = split_ws(keyword).len();
    proof {
        assert(q as int == tokens(keyword@).len());
    }
    if q == 0 {
        proof {
            let tq: int = tokens(keyword@).len() as int;
            let tt: int = total_doc_terms(documents@, 0) as int;
            assert(tq * (1 + 2 * tt) == 0) by (nonlinear_arith)
                requires
                    tq == 0,
            ;
        }
        return true;
    }
    let ghost tq: int = tokens(keyword@).len() as int;
    let ghost tt: int = total_doc_terms(documents@, 0) as int;
    if q as u64 > COUNT_CAP {
        proof {
            assert(tq * (1 + 2 * tt) >= tq) by (nonlinear_arith)
                requires
                    tq >= 0,
                    tt >= 0,
            ;
        }
        return false;
    }
    let qq = q as u128;
    proof {
        assert(total <= 0xffffffffffffffffu128 * (COUNT_CAP as int)) by (nonlinear_arith)
            requires
                total <= n * (COUNT_CAP as int),
                0 <= n <= 0xffffffffffffffffu128,
        ;
        assert(qq * (1 + 2 * total) <= (COUNT_CAP as int) * (1 + 2 * 0xffffffffffffffffu128 * (
        COUNT_CAP as int))) by (nonlinear_arith)
            requires
                0 <= qq <= COUNT_CAP as int,
                0 <= total <= 0xffffffffffffffffu128 * (COUNT_CAP as int),
        ;
    }
    let limit = qq * (1 + 2 * total);
    limit <= COUNT_CAP as u128
}

/// Run the whole search pipeline over an already-fetched catalog snapshot.
/// A failed fetch resolves as `StoreUnavailable`, never as an empty success;
/// a successful fetch is vectorized, the query expanded against the vectors,
/// and the ranked, strictly-positive-score results returned (an empty list is
/// a valid success).
pub fn s_search_book(fetched: Result<Vec<Book>, StoreError>, keyword: &str) -> (r: Result<
    Vec<SearchResult>,
    SearchError,
>)
    requires
        fetched matches Ok(docs) ==> search_within_limits(docs@, keyword@),
    ensures
        fetched matches Err(_) ==> r == Result::<Vec<SearchResult>, SearchError>::Err(
            SearchError::StoreUnavailable,
        ),
        fetched matches Ok(docs) ==> (r matches Ok(list) && rank_post(
            expand_map(lower_terms(keyword@), padded_maps(docs@)),
            padded_maps(docs@),
            doc_views(docs@),
            list@.map_values(|e: SearchResult| e@),
        )),
{
    match fetched {
        Result::Err(_) => Result::Err(SearchError::StoreUnavailable),
        Result::Ok(book) => {
            let vectors = vectorize_book(&book);
            proof {
                assert(vec_views(vectors@) =~= padded_maps(book@));
                lemma_total_keys_twice(vectors@, book@);
                let tq: int = tokens(keyword@).len() as int;
                assert(tq * (1 + total_keys(vectors@)) <= tq * (1 + 2 * total_doc_terms(book@, 0)))
                    by (nonlinear_arith)
                    requires
                        tq >= 0,
                        0 <= total_keys(vectors@) <= 2 * total_doc_terms(book@, 0),
                ;
            }
            let qv = vectorize_word(keyword, &vectors);
            let results = rank(&qv, &vectors, &book);
            Result::Ok(results)
        },
    }
}

} // verus!
