//! Key order and interpolation: an object's references resolve the same
//! whichever order its keys come in.

use vstd::prelude::*;
use crate::interp::{
    body_fault, dependency_cycle, depends, document_clean, env_ref, from_a_piece, interpolation_outcome,
    lemma_depends_nonroot, lemma_key_index_same_keys, lemma_lookup_push, lemma_lookup_well_formed,
    lemma_site_depends, lookup_spec, node_of, piece_clean, piece_problem, piece_target, piece_text, pieces_text,
    preserved, references_resolved, references_resolved_at, resolution_order, string_clean, whole_ref, Env,
};
use crate::interp_error::InterpError;
use crate::path::{lemma_parsed_is_plain, parse_path, SegModel};
use crate::scan::{find_from, lemma_find_from, scan_from, scan_spec, PieceModel};
use crate::value::{key_index, keys_distinct, lemma_key_index, lemma_key_index_distinct, Value, ValueModel};

verus! {

/// Two entry lists hold the same entries, in whatever order.
pub open spec fn same_entries(e1: Seq<(Seq<char>, ValueModel)>, e2: Seq<(Seq<char>, ValueModel)>) -> bool {
    &&& forall|i: int| 0 <= i < e1.len() ==> exists|j: int| 0 <= j < e2.len() && e2[j] == #[trigger] e1[i]
    &&& forall|j: int| 0 <= j < e2.len() ==> exists|i: int| 0 <= i < e1.len() && e1[i] == #[trigger] e2[j]
}

/// Every string of `doc` with references embedded in text has its text
/// known in `out`: no finite float, whose spelling is the caller's, is
/// spliced into text.
pub open spec fn splices_known<E: Env>(doc: ValueModel, env: &E, out: ValueModel) -> bool {
    forall|p: Seq<SegModel>|
        match #[trigger] lookup_spec(doc, p) {
            Some(ValueModel::String(s)) => !whole_ref(scan_spec(s)) && scan_spec(s).len() > 0 ==> pieces_text(
                doc,
                env,
                node_of(out),
                scan_spec(s),
            ) is Some,
            _ => true,
        }
}

/// A string with a `$` in it has pieces.
proof fn lemma_scan_from_nonempty(s: Seq<char>, cursor: int, lit: int)
    requires
        0 <= lit <= cursor,
        lit < s.len(),
    ensures
        scan_from(s, cursor, lit).len() > 0,
    decreases s.len() - cursor,
{
    if cursor < s.len() {
        let at = find_from(s, cursor, '$');
        lemma_find_from(s, cursor, '$');
        if at < s.len() && !(at + 1 < s.len() && s[at + 1] == '$') && !(at + 1 < s.len() && s[at + 1] == '{') {
            lemma_scan_from_nonempty(s, at + 1, lit);
        } else if at < s.len() && !(at + 1 < s.len() && s[at + 1] == '$') {
            lemma_find_from(s, at + 2, '}');
        }
    }
}

/// Below the root, two objects with the same entries have the same nodes.
proof fn lemma_same_entries_lookup(d1: ValueModel, d2: ValueModel, p: Seq<SegModel>)
    requires
        d1 is Object,
        d2 is Object,
        keys_distinct(d1->Object_0),
        keys_distinct(d2->Object_0),
        same_entries(d1->Object_0, d2->Object_0),
        p.len() > 0,
    ensures
        lookup_spec(d1, p) == lookup_spec(d2, p),
{
    let e1 = d1->Object_0;
    let e2 = d2->Object_0;
    if let SegModel::Key(k) = p[0] {
        lemma_key_index(e1, k);
        lemma_key_index(e2, k);
        let a = key_index(e1, k);
        let b = key_index(e2, k);
        if a >= 0 {
            let j = choose|j: int| 0 <= j < e2.len() && e2[j] == #[trigger] e1[a];
            lemma_key_index_distinct(e2, j);
        } else if b >= 0 {
            let i = choose|i: int| 0 <= i < e1.len() && e1[i] == #[trigger] e2[b];
            assert(e1[i].0 == k);
        }
    }
}

/// Where resolution keeps a document's shape, it keeps it at every node.
proof fn lemma_preserved_lookup(d: ValueModel, o: ValueModel, p: Seq<SegModel>)
    requires
        preserved(d, o),
        lookup_spec(d, p) is Some,
    ensures
        lookup_spec(o, p) is Some,
        preserved(lookup_spec(d, p)->Some_0, lookup_spec(o, p)->Some_0),
    decreases p.len(),
{
    if p.len() > 0 {
        match (p[0], d) {
            (SegModel::Key(k), ValueModel::Object(e)) => {
                let f = o->Object_0;
                lemma_key_index(e, k);
                lemma_key_index_same_keys(e, f, k);
                let at = key_index(e, k);
                assert(preserved(e[at].1, f[at].1));
                lemma_preserved_lookup(e[at].1, f[at].1, p.drop_first());
            },
            (SegModel::Index(n), ValueModel::Array(a)) => {
                let b = o->Array_0;
                assert(preserved(a[n as int], b[n as int]));
                lemma_preserved_lookup(a[n as int], b[n as int], p.drop_first());
            },
            _ => {},
        }
    }
}

/// The text of an embedded string comes out the same from two resolutions
/// that agree on every node its references name.
proof fn lemma_pieces_text_alike<E: Env>(
    d1: ValueModel,
    d2: ValueModel,
    env: &E,
    o1: ValueModel,
    o2: ValueModel,
    pieces: Seq<PieceModel>,
)
    requires
        forall|q: Seq<SegModel>| q.len() > 0 ==> #[trigger] lookup_spec(d1, q) == lookup_spec(d2, q),
        forall|k: int|
            0 <= k < pieces.len() && (#[trigger] piece_target(d1, pieces[k])) is Some ==> lookup_spec(
                o1,
                piece_target(d1, pieces[k])->Some_0,
            ) == lookup_spec(o2, piece_target(d1, pieces[k])->Some_0),
    ensures
        pieces_text(d1, env, node_of(o1), pieces) == pieces_text(d2, env, node_of(o2), pieces),
    decreases pieces.len(),
{
    if pieces.len() > 0 {
        let init = pieces.drop_last();
        assert forall|k: int|
            0 <= k < init.len() && (#[trigger] piece_target(d1, init[k])) is Some implies lookup_spec(
                o1,
                piece_target(d1, init[k])->Some_0,
            ) == lookup_spec(o2, piece_target(d1, init[k])->Some_0) by {
            assert(init[k] == pieces[k]);
        }
        lemma_pieces_text_alike(d1, d2, env, o1, o2, init);
        let last = pieces.last();
        assert(piece_target(d1, pieces[pieces.len() - 1]) == piece_target(d1, last));
        if let PieceModel::Ref(body) = last {
            if env_ref(body) is None && parse_path(body) is Ok {
                lemma_parsed_is_plain(body);
                let q = parse_path(body)->Ok_0;
                assert(lookup_spec(d1, q) == lookup_spec(d2, q));
            }
        }
        assert(piece_text(d1, env, node_of(o1), last) == piece_text(d2, env, node_of(o2), last));
    }
}

/// The node of a resolved object under one of its keys.
proof fn lemma_member(x: ValueModel, e: Seq<(Seq<char>, ValueModel)>, m: int)
    requires
        preserved(ValueModel::Object(e), x),
        keys_distinct(e),
        0 <= m < e.len(),
    ensures
        lookup_spec(x, seq![SegModel::Key(e[m].0)]) == Some(x->Object_0[m].1),
{
    let f = x->Object_0;
    let path = seq![SegModel::Key(e[m].0)];
    assert(x is Object && f.len() == e.len() && forall|i: int| 0 <= i < e.len() ==> f[i].0 == (#[trigger] e[i]).0);
    lemma_key_index_distinct(e, m);
    lemma_key_index_same_keys(e, f, e[m].0);
    assert(key_index(f, e[m].0) == m);
    assert(path[0] == SegModel::Key(e[m].0));
    assert(path.drop_first() =~= Seq::<SegModel>::empty());
    assert(lookup_spec(f[m].1, path.drop_first()) == Some(f[m].1));
}

/// Every array of a value's denotation has a length a `usize` holds.
proof fn lemma_arrays_fit(v: Value, p: Seq<SegModel>)
    ensures
        match lookup_spec(v.model(), p) {
            Some(ValueModel::Array(a)) => a.len() <= usize::MAX,
            _ => true,
        },
    decreases p.len(),
{
    if p.len() == 0 {
        assert(lookup_spec(v.model(), p) == Some(v.model()));
        if let Value::Array(items) = v {
            assert(v.model()->Array_0.len() == items@.len());
            assert(items@.len() == items.len());
        }
    } else {
        match (p[0], v) {
            (SegModel::Key(k), Value::Object(entries)) => {
                let e = v.model()->Object_0;
                lemma_key_index(e, k);
                let at = key_index(e, k);
                if at >= 0 {
                    assert(e[at].1 == entries@[at].1.model());
                    lemma_arrays_fit(entries@[at].1, p.drop_first());
                }
            },
            (SegModel::Index(n), Value::Array(items)) => {
                if (n as int) < items@.len() {
                    assert(v.model()->Array_0[n as int] == items@[n as int].model());
                    lemma_arrays_fit(items@[n as int], p.drop_first());
                }
            },
            _ => {},
        }
    }
}

/// Two documents that agree below the root, each resolved successfully,
/// resolve each node of the first's resolution order alike.
proof fn lemma_resolved_alike<E: Env>(
    d1: ValueModel,
    d2: ValueModel,
    env: &E,
    o1: ValueModel,
    o2: ValueModel,
    order: Seq<Seq<SegModel>>,
    i: int,
)
    requires
        d1.well_formed(),
        forall|q: Seq<SegModel>| q.len() > 0 ==> #[trigger] lookup_spec(d1, q) == lookup_spec(d2, q),
        forall|q: Seq<SegModel>|
            match #[trigger] lookup_spec(d1, q) {
                Some(ValueModel::Array(a)) => a.len() <= usize::MAX,
                _ => true,
            },
        preserved(d1, o1),
        preserved(d2, o2),
        references_resolved(d1, env, o1),
        references_resolved(d2, env, o2),
        document_clean(d1, env, o1),
        splices_known(d1, env, o1),
        resolution_order(d1, order),
        0 <= i < order.len(),
    ensures
        lookup_spec(o1, order[i]) == lookup_spec(o2, order[i]),
    decreases i,
{
    let p = order[i];
    assert(p.len() > 0 && lookup_spec(d1, p) is Some);
    let node = lookup_spec(d1, p)->Some_0;
    assert(lookup_spec(d2, p) == Some(node));
    lemma_preserved_lookup(d1, o1, p);
    lemma_preserved_lookup(d2, o2, p);
    let x1 = lookup_spec(o1, p)->Some_0;
    let x2 = lookup_spec(o2, p)->Some_0;
    match node {
        ValueModel::Object(e) => {
            lemma_lookup_well_formed(d1, p);
            let f1 = x1->Object_0;
            let f2 = x2->Object_0;
            assert forall|m: int| 0 <= m < e.len() implies #[trigger] f1[m] == f2[m] by {
                let c = p.push(SegModel::Key(e[m].0));
                assert(depends(d1, order[i], c));
                let j = choose|j: int| 0 <= j < i && #[trigger] order[j] == c;
                lemma_resolved_alike(d1, d2, env, o1, o2, order, j);
                lemma_lookup_push(o1, p, SegModel::Key(e[m].0));
                lemma_lookup_push(o2, p, SegModel::Key(e[m].0));
                lemma_member(x1, e, m);
                lemma_member(x2, e, m);
            }
            assert(f1 =~= f2);
        },
        ValueModel::Array(a) => {
            let b1 = x1->Array_0;
            let b2 = x2->Array_0;
            assert forall|m: int| 0 <= m < a.len() implies #[trigger] b1[m] == b2[m] by {
                assert((m as usize) as int == m);
                let c = p.push(SegModel::Index(m as usize));
                assert(depends(d1, order[i], c));
                let j = choose|j: int| 0 <= j < i && #[trigger] order[j] == c;
                lemma_resolved_alike(d1, d2, env, o1, o2, order, j);
                lemma_lookup_push(o1, p, SegModel::Index(m as usize));
                lemma_lookup_push(o2, p, SegModel::Index(m as usize));
                let path = seq![SegModel::Index(m as usize)];
                assert(path[0] == SegModel::Index(m as usize));
                assert(path.drop_first() =~= Seq::<SegModel>::empty());
                assert(x1 is Array && b1.len() == a.len());
                assert(x2 is Array && b2.len() == a.len());
                assert(lookup_spec(b1[m], path.drop_first()) == Some(b1[m]));
                assert(lookup_spec(b2[m], path.drop_first()) == Some(b2[m]));
                assert(lookup_spec(x1, path) == Some(b1[m]));
                assert(lookup_spec(x2, path) == Some(b2[m]));
            }
            assert(b1 =~= b2);
        },
        ValueModel::String(s) => {
            if s.contains('$') {
                let pieces = scan_spec(s);
                lemma_scan_from_nonempty(s, 0, 0);
                assert(references_resolved_at(d1, env, o1, p));
                assert(references_resolved_at(d2, env, o2, p));
                assert(string_clean(d1, env, node_of(o1), s));
                if whole_ref(pieces) {
                    let body = pieces[0]->Ref_0;
                    assert(piece_clean(d1, env, node_of(o1), pieces[0], whole_ref(pieces)));
                    assert(body_fault(body) is None);
                    if env_ref(body) is None {
                        let q = parse_path(body)->Ok_0;
                        lemma_parsed_is_plain(body);
                        assert(pieces.contains(PieceModel::Ref(body))) by {
                            assert(pieces[0] == PieceModel::Ref(body));
                        }
                        lemma_site_depends(d1, p, body, q);
                        let j = choose|j: int| 0 <= j < i && #[trigger] order[j] == q;
                        lemma_resolved_alike(d1, d2, env, o1, o2, order, j);
                    }
                } else {
                    assert forall|k: int|
                        0 <= k < pieces.len() && (#[trigger] piece_target(d1, pieces[k])) is Some implies lookup_spec(
                            o1,
                            piece_target(d1, pieces[k])->Some_0,
                        ) == lookup_spec(o2, piece_target(d1, pieces[k])->Some_0) by {
                        let q = piece_target(d1, pieces[k])->Some_0;
                        assert(depends(d1, order[i], q));
                        let j = choose|j: int| 0 <= j < i && #[trigger] order[j] == q;
                        lemma_resolved_alike(d1, d2, env, o1, o2, order, j);
                    }
                    lemma_pieces_text_alike(d1, d2, env, o1, o2, pieces);
                }
            }
        },
        _ => {},
    }
}

/// Below the root, what a node needs is the same in two documents that
/// agree there.
proof fn lemma_depends_alike(d1: ValueModel, d2: ValueModel, p: Seq<SegModel>, q: Seq<SegModel>)
    requires
        forall|r: Seq<SegModel>| r.len() > 0 ==> #[trigger] lookup_spec(d1, r) == lookup_spec(d2, r),
        p.len() > 0,
        depends(d2, p, q),
    ensures
        depends(d1, p, q),
{
    assert(lookup_spec(d1, p) == lookup_spec(d2, p));
    if let Some(ValueModel::String(s)) = lookup_spec(d2, p) {
        let k = choose|k: int| 0 <= k < scan_spec(s).len() && #[trigger] piece_target(d2, scan_spec(s)[k]) == Some(q);
        let body = scan_spec(s)[k]->Ref_0;
        lemma_parsed_is_plain(body);
        assert(lookup_spec(d1, q) == lookup_spec(d2, q));
        assert(piece_target(d1, scan_spec(s)[k]) == Some(q));
    }
}

/// A document that agrees with a resolved one below the root has no
/// dependency cycle either.
proof fn lemma_no_cycle_alike(d1: ValueModel, d2: ValueModel, c: Seq<Seq<SegModel>>)
    requires
        forall|r: Seq<SegModel>| r.len() > 0 ==> #[trigger] lookup_spec(d1, r) == lookup_spec(d2, r),
        forall|c: Seq<Seq<SegModel>>| !#[trigger] dependency_cycle(d1, c),
    ensures
        !dependency_cycle(d2, c),
{
    if dependency_cycle(d2, c) {
        assert forall|k: int| 0 <= k < c.len() - 1 implies #[trigger] depends(d1, c[k], c[k + 1]) by {
            if k == 0 {
                let m = c.len() - 2;
                assert(depends(d2, c[m], c[m + 1]));
                lemma_depends_nonroot(d2, c[m], c[m + 1]);
                assert(c[0] == c[m + 1]);
            } else {
                let m = k - 1;
                assert(depends(d2, c[m], c[m + 1]));
                lemma_depends_nonroot(d2, c[m], c[m + 1]);
            }
            lemma_depends_alike(d1, d2, c[k], c[k + 1]);
        }
        assert(dependency_cycle(d1, c));
    }
}

/// An object's key order does not change what its references resolve to:
/// when a document interpolates successfully, so does every document holding
/// the same entries in another order, every key resolves to the same value
/// in both, and each keeps its own key order — wherever no finite float is
/// spliced into text, whose spelling is the caller's and which no contract
/// fixes.
pub proof fn law_key_order_is_immaterial<E: Env>(
    doc1: Value,
    doc2: Value,
    env: &E,
    r1: Value,
    res2: Result<Value, InterpError>,
)
    requires
        doc1.model().well_formed(),
        doc2.model().well_formed(),
        doc1.model() is Object,
        doc2.model() is Object,
        same_entries(doc1.model()->Object_0, doc2.model()->Object_0),
        interpolation_outcome(doc1.model(), env, Ok(r1)),
        interpolation_outcome(doc2.model(), env, res2),
        splices_known(doc1.model(), env, r1.model()),
    ensures
        res2 is Ok,
        forall|k: Seq<char>|
            #[trigger] lookup_spec(r1.model(), seq![SegModel::Key(k)]) == lookup_spec(
                res2->Ok_0.model(),
                seq![SegModel::Key(k)],
            ),
        r1.model() is Object && r1.model()->Object_0.len() == doc1.model()->Object_0.len() && forall|i: int|
            0 <= i < doc1.model()->Object_0.len() ==> (#[trigger] r1.model()->Object_0[i]).0 == doc1.model()->Object_0[i].0,
        res2->Ok_0.model() is Object && res2->Ok_0.model()->Object_0.len() == doc2.model()->Object_0.len() && forall|i: int|
            0 <= i < doc2.model()->Object_0.len() ==> (#[trigger] res2->Ok_0.model()->Object_0[i]).0
                == doc2.model()->Object_0[i].0,
{
    let d1 = doc1.model();
    let d2 = doc2.model();
    assert forall|q: Seq<SegModel>|
        match #[trigger] lookup_spec(d1, q) {
            Some(ValueModel::Array(a)) => a.len() <= usize::MAX,
            _ => true,
        } by {
        lemma_arrays_fit(doc1, q);
    }
    let o1 = r1.model();
    let e1 = d1->Object_0;
    let e2 = d2->Object_0;
    assert forall|q: Seq<SegModel>| q.len() > 0 implies #[trigger] lookup_spec(d1, q) == lookup_spec(d2, q) by {
        lemma_same_entries_lookup(d1, d2, q);
    }
    let order = choose|order: Seq<Seq<SegModel>>| #[trigger] resolution_order(d1, order);
    match res2 {
        Err(InterpError::Cycle(c)) => {
            lemma_no_cycle_alike(d1, d2, c.chain_view());
        },
        Err(InterpError::Problems(ps)) => {
            let v = choose|v: ValueModel|
                preserved(d2, v) && references_resolved(d2, env, v) && #[trigger] crate::interp::all_reported(
                    d2,
                    env,
                    node_of(v),
                    ps@,
                ) && crate::interp::all_from_pieces(d2, env, node_of(v), ps@) && crate::interp_error::problems_view(ps@)
                    == crate::interp::site_problems(d2, env, node_of(v), crate::interp::resolution_walk(d2).sites);
            let q = ps@[0]@;
            assert(from_a_piece(d2, env, node_of(v), q));
            let p = q.path();
            assert(p.len() > 0);
            let s = lookup_spec(d2, p)->Some_0->String_0;
            assert(lookup_spec(d1, p) == lookup_spec(d2, p));
            let pieces = scan_spec(s);
            let k = choose|k: int|
                0 <= k < pieces.len() && #[trigger] piece_problem(d2, env, node_of(v), p, pieces[k], whole_ref(pieces))
                    == Some(q);
            assert(string_clean(d1, env, node_of(o1), s));
            assert(piece_clean(d1, env, node_of(o1), pieces[k], whole_ref(pieces)));
            if let PieceModel::Ref(body) = pieces[k] {
                if env_ref(body) is None && parse_path(body) is Ok {
                    let t = parse_path(body)->Ok_0;
                    lemma_parsed_is_plain(body);
                    assert(lookup_spec(d1, t) == lookup_spec(d2, t));
                    if lookup_spec(d1, t) is Some {
                        let j = choose|j: int| 0 <= j < order.len() && #[trigger] order[j] == t;
                        lemma_resolved_alike(d1, d2, env, o1, v, order, j);
                    }
                }
            }
        },
        Ok(_) => {},
    }
    let o2 = res2->Ok_0.model();
    assert forall|k: Seq<char>| #[trigger] lookup_spec(o1, seq![SegModel::Key(k)]) == lookup_spec(
        o2,
        seq![SegModel::Key(k)],
    ) by {
        let p = seq![SegModel::Key(k)];
        assert(p[0] == SegModel::Key(k));
        assert(p.drop_first() =~= Seq::<SegModel>::empty());
        lemma_key_index(e1, k);
        lemma_key_index(e2, k);
        lemma_key_index_same_keys(e1, o1->Object_0, k);
        lemma_key_index_same_keys(e2, o2->Object_0, k);
        if key_index(e1, k) >= 0 {
            assert(d1 == ValueModel::Object(e1));
            assert(lookup_spec(e1[key_index(e1, k)].1, p.drop_first()) is Some);
            assert(lookup_spec(d1, p) is Some);
            let i = choose|i: int| 0 <= i < order.len() && #[trigger] order[i] == p;
            lemma_resolved_alike(d1, d2, env, o1, o2, order, i);
        } else if key_index(e2, k) >= 0 {
            let b = key_index(e2, k);
            let i = choose|i: int| 0 <= i < e1.len() && e1[i] == #[trigger] e2[b];
            assert(e1[i].0 == k);
        }
    }
}

} // verus!
