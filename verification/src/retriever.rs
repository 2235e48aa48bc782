use vstd::prelude::*;

use crate::CoreError;

verus! {

/// Largest vector dimension the scorer accepts.  It keeps every product
/// that the exact cosine comparison forms inside `i128`.
pub const MAX_DIM: usize = 4096;

/// An attribute value carried by a record: a number, or a set of words.
#[derive(Debug, Clone, PartialEq, Eq)]
pub enum AttrValue {
    Num(i64),
    Words(Vec<String>),
}

/// A stored item: an identifier, an embedding vector with integer
/// components, and named attributes.
#[derive(Debug, Clone, PartialEq, Eq)]
pub struct Record {
    pub id: String,
    pub vector: Vec<i16>,
    pub attributes: Vec<(String, AttrValue)>,
}

/// A test over one record attribute.  `Range` passes when the attribute
/// is a number within `min ..= max`; `SetIntersects` passes when the
/// attribute is a word set sharing at least one word with `values`.  A
/// record missing the attribute, or carrying it in the other shape, does
/// not pass.
#[derive(Debug, Clone, PartialEq, Eq)]
pub enum Predicate {
    Range { attr: String, min: i64, max: i64 },
    SetIntersects { attr: String, values: Vec<String> },
}

/// An exact cosine-similarity score.
///
/// `Cos` keeps the dot product and the two squared norms instead of the
/// quotient `dot / (sqrt(qnorm2) * sqrt(vnorm2))`, so the value is exact;
/// scores of one query are compared by cross-multiplication.
/// `NotComparable` stands for an undefined cosine (a zero-norm vector)
/// and ranks below every comparable score.
#[derive(Debug, Clone, Copy, PartialEq, Eq, Structural)]
pub enum Score {
    NotComparable,
    Cos { dot: i64, qnorm2: i64, vnorm2: i64 },
}

/// One ranked record together with its score.
#[derive(Debug, Clone, PartialEq, Eq)]
pub struct ScoredResult {
    pub score: Score,
    pub record: Record,
}

/// The stateless filter / score / rank algorithm.
pub struct RankedRetriever;

/// The dot product of two vectors, over the shared prefix of their
/// lengths.
pub open spec fn dot_spec(a: Seq<i16>, b: Seq<i16>) -> int
    decreases a.len(),
{
    if a.len() == 0 || b.len() == 0 {
        0
    } else {
        a.last() * b.last() + dot_spec(a.drop_last(), b.drop_last())
    }
}

/// The squared Euclidean norm of a vector.
pub open spec fn norm2_spec(a: Seq<i16>) -> int {
    dot_spec(a, a)
}

/// The score of `v` against query `q`: the exact cosine data, or the
/// sentinel when either vector has zero norm.
pub open spec fn spec_score(q: Seq<i16>, v: Seq<i16>) -> Score {
    if norm2_spec(q) == 0 || norm2_spec(v) == 0 {
        Score::NotComparable
    } else {
        Score::Cos {
            dot: dot_spec(q, v) as i64,
            qnorm2: norm2_spec(q) as i64,
            vnorm2: norm2_spec(v) as i64,
        }
    }
}

/// Bounds under which the exec comparison of two scores cannot overflow.
pub open spec fn score_bounded(s: Score) -> bool {
    match s {
        Score::NotComparable => true,
        Score::Cos { dot, qnorm2, vnorm2 } => {
            &&& -0x400_0000_0000 <= dot <= 0x400_0000_0000
            &&& 0 < qnorm2 <= 0x400_0000_0000
            &&& 0 < vnorm2 <= 0x400_0000_0000
        },
    }
}

/// `a` ranks strictly better than `b` among scores of one query.
///
/// For two comparable scores of the same query this says exactly that
/// the cosine of `a` is greater than the cosine of `b`: the common
/// factor `sqrt(qnorm2)` cancels, signs are compared first, and equal
/// signs are decided by cross-multiplying the squared quotients
/// `dot^2 / vnorm2`.  A comparable score always ranks above the
/// `NotComparable` sentinel.
pub open spec fn score_before(a: Score, b: Score) -> bool {
    match (a, b) {
        (Score::NotComparable, _) => false,
        (Score::Cos { .. }, Score::NotComparable) => true,
        (
            Score::Cos { dot: da, vnorm2: va, .. },
            Score::Cos { dot: db, vnorm2: vb, .. },
        ) => {
            if da >= 0 && db < 0 {
                true
            } else if da < 0 && db >= 0 {
                false
            } else if da >= 0 {
                da * da * vb > db * db * va
            } else {
                da * da * vb < db * db * va
            }
        },
    }
}

/// Two scores of one query that denote the same rank position.
pub open spec fn score_tied(a: Score, b: Score) -> bool {
    !score_before(a, b) && !score_before(b, a)
}

/// The dot product of vectors of length at most `n` with components of
/// magnitude at most `2^15` lies within `n * 2^30`.
pub proof fn lemma_dot_bound(a: Seq<i16>, b: Seq<i16>)
    ensures
        -(a.len() * 0x4000_0000) <= dot_spec(a, b) <= a.len() * 0x4000_0000,
    decreases a.len(),
{
    if a.len() == 0 || b.len() == 0 {
    } else {
        lemma_dot_bound(a.drop_last(), b.drop_last());
        let x = a.last();
        let y = b.last();
        assert(-0x4000_0000 <= x * y <= 0x4000_0000) by (nonlinear_arith)
            requires
                -0x8000 <= x <= 0x7fff,
                -0x8000 <= y <= 0x7fff,
        ;
    }
}

/// A squared norm is never negative.
pub proof fn lemma_norm2_nonneg(a: Seq<i16>)
    ensures
        norm2_spec(a) >= 0,
    decreases a.len(),
{
    if a.len() == 0 {
    } else {
        lemma_norm2_nonneg(a.drop_last());
        let x = a.last();
        assert(x * x >= 0) by (nonlinear_arith);
    }
}

/// The score of two vectors of equal dimension at most `MAX_DIM` is
/// within the bounds of the exec comparison.
pub proof fn lemma_spec_score_bounded(q: Seq<i16>, v: Seq<i16>)
    requires
        q.len() == v.len(),
        q.len() <= MAX_DIM,
    ensures
        score_bounded(spec_score(q, v)),
{
    lemma_dot_bound(q, v);
    lemma_dot_bound(q, q);
    lemma_dot_bound(v, v);
    lemma_norm2_nonneg(q);
    lemma_norm2_nonneg(v);
    assert(q.len() * 0x4000_0000 <= 0x400_0000_0000) by (nonlinear_arith)
        requires
            q.len() <= 4096,
    ;
    assert(v.len() * 0x4000_0000 <= 0x400_0000_0000) by (nonlinear_arith)
        requires
            v.len() <= 4096,
    ;
}

/// The dot product of two borrowed vectors of equal dimension.
fn dot_i64(a: &Vec<i16>, b: &Vec<i16>) -> (r: i64)
    requires
        a@.len() == b@.len(),
        a@.len() <= MAX_DIM,
    ensures
        r == dot_spec(a@, b@),
{
    let n = a.len();
    let mut acc: i64 = 0;
    let mut i: usize = 0;
    while i < n
        invariant
            n == a@.len(),
            a@.len() == b@.len(),
            n <= MAX_DIM,
            i <= n,
            acc == dot_spec(a@.take(i as int), b@.take(i as int)),
            -((i as int) * 0x4000_0000) <= acc <= (i as int) * 0x4000_0000,
        decreases n - i,
    {
        let x = a[i];
        let y = b[i];
        proof {
            assert(-0x4000_0000 <= x * y <= 0x4000_0000) by (nonlinear_arith)
                requires
                    -0x8000 <= x <= 0x7fff,
                    -0x8000 <= y <= 0x7fff,
            ;
        }
        let prod: i64 = (x as i64) * (y as i64);
        acc = acc + prod;
        proof {
            assert(a@.take(i + 1).drop_last() =~= a@.take(i as int));
            assert(b@.take(i + 1).drop_last() =~= b@.take(i as int));
            assert(a@.take(i + 1).last() == a@[i as int]);
            assert(b@.take(i + 1).last() == b@[i as int]);
        }
        i += 1;
    }
    proof {
        assert(a@.take(n as int) =~= a@);
        assert(b@.take(n as int) =~= b@);
    }
    acc
}

/// Decides the strict ranking order of two bounded scores.
fn score_before_exec(a: &Score, b: &Score) -> (r: bool)
    requires
        score_bounded(*a),
        score_bounded(*b),
    ensures
        r == score_before(*a, *b),
{
    match (a, b) {
        (Score::NotComparable, _) => false,
        (Score::Cos { .. }, Score::NotComparable) => true,
        (
            Score::Cos { dot: da, vnorm2: va, .. },
            Score::Cos { dot: db, vnorm2: vb, .. },
        ) => {
            let da = *da;
            let db = *db;
            let va = *va;
            let vb = *vb;
            if da >= 0 && db < 0 {
                true
            } else if da < 0 && db >= 0 {
                false
            } else {
                proof {
                    assert(0 <= (da as int) * (da as int) <= 0x10_0000_0000_0000_0000_0000)
                        by (nonlinear_arith)
                        requires
                            -0x400_0000_0000 <= da <= 0x400_0000_0000,
                    ;
                    assert(0 <= (da as int) * (da as int) * (vb as int)
                        <= 0x4000_0000_0000_0000_0000_0000_0000_0000) by (nonlinear_arith)
                        requires
                            0 <= (da as int) * (da as int) <= 0x10_0000_0000_0000_0000_0000,
                            0 < vb <= 0x400_0000_0000,
                    ;
                    assert(0 <= (db as int) * (db as int) <= 0x10_0000_0000_0000_0000_0000)
                        by (nonlinear_arith)
                        requires
                            -0x400_0000_0000 <= db <= 0x400_0000_0000,
                    ;
                    assert(0 <= (db as int) * (db as int) * (va as int)
                        <= 0x4000_0000_0000_0000_0000_0000_0000_0000) by (nonlinear_arith)
                        requires
                            0 <= (db as int) * (db as int) <= 0x10_0000_0000_0000_0000_0000,
                            0 < va <= 0x400_0000_0000,
                    ;
                }
                let lhs: i128 = (da as i128) * (da as i128) * (vb as i128);
                let rhs: i128 = (db as i128) * (db as i128) * (va as i128);
                if da >= 0 {
                    lhs > rhs
                } else {
                    lhs < rhs
                }
            }
        },
    }
}

/// Whether some record's dimension differs from the query's.
pub open spec fn has_mismatch(records: Seq<Record>, q: Seq<i16>) -> bool {
    exists|i: int| 0 <= i < records.len() && (#[trigger] records[i]).vector@.len() != q.len()
}

/// `a` goes before `b` in a ranking: a strictly better score, or a tie
/// resolved by the earlier input position (stability).
pub open spec fn ranked_before(a: (int, ScoredResult), b: (int, ScoredResult)) -> bool {
    score_before(a.1.score, b.1.score) || (score_tied(a.1.score, b.1.score) && a.0 < b.0)
}

/// Inserts an indexed result into a ranked sequence, after every element
/// it does not go before.
pub open spec fn insert_ranked(
    s: Seq<(int, ScoredResult)>,
    x: (int, ScoredResult),
) -> Seq<(int, ScoredResult)>
    decreases s.len(),
{
    if s.len() == 0 {
        seq![x]
    } else if ranked_before(x, s.first()) {
        seq![x] + s
    } else {
        seq![s.first()] + insert_ranked(s.drop_first(), x)
    }
}

/// Sorts an indexed sequence by rank, by insertion.
pub open spec fn sort_ranked(s: Seq<(int, ScoredResult)>) -> Seq<(int, ScoredResult)>
    decreases s.len(),
{
    if s.len() == 0 {
        Seq::empty()
    } else {
        insert_ranked(sort_ranked(s.drop_last()), s.last())
    }
}

/// Every record scored against `q`, in the given order.
pub open spec fn scored_of(records: Seq<Record>, q: Seq<i16>) -> Seq<ScoredResult> {
    records.map_values(|r: Record| ScoredResult { score: spec_score(q, r.vector@), record: r })
}

/// Pairs each element with its position.
pub open spec fn indexed(s: Seq<ScoredResult>) -> Seq<(int, ScoredResult)> {
    Seq::new(s.len(), |i: int| (i, s[i]))
}

/// What `rank` returns: every record scored against `q`, sorted by
/// descending score with ties kept in input order, truncated to the
/// first `k`.
pub open spec fn rank_spec(records: Seq<Record>, q: Seq<i16>, k: int) -> Seq<ScoredResult> {
    let stripped = sort_ranked(indexed(scored_of(records, q))).map_values(
        |p: (int, ScoredResult)| p.1,
    );
    stripped.subrange(0, if k <= stripped.len() { k } else { stripped.len() as int })
}

/// `insert_ranked` puts the new element exactly at the first position it
/// goes before.
proof fn lemma_insert_ranked_at(s: Seq<(int, ScoredResult)>, x: (int, ScoredResult), p: int)
    requires
        0 <= p <= s.len(),
        forall|j: int| 0 <= j < p ==> !ranked_before(x, #[trigger] s[j]),
        p < s.len() ==> ranked_before(x, s[p]),
    ensures
        insert_ranked(s, x) == s.insert(p, x),
    decreases s.len(),
{
    if s.len() == 0 {
        assert(insert_ranked(s, x) =~= s.insert(0, x));
    } else if p == 0 {
        assert(ranked_before(x, s.first()));
        assert(seq![x] + s =~= s.insert(0, x));
    } else {
        assert(!ranked_before(x, s[0]));
        let t = s.drop_first();
        assert forall|j: int| 0 <= j < p - 1 implies !ranked_before(x, #[trigger] t[j]) by {
            assert(t[j] == s[j + 1]);
        }
        if p - 1 < t.len() {
            assert(t[p - 1] == s[p]);
        }
        lemma_insert_ranked_at(t, x, p - 1);
        assert(seq![s.first()] + t.insert(p - 1, x) =~= s.insert(p, x));
    }
}

/// The value of the first attribute named `name`, if any.
pub open spec fn attr_of(attrs: Seq<(String, AttrValue)>, name: Seq<char>) -> Option<AttrValue>
    decreases attrs.len(),
{
    if attrs.len() == 0 {
        None
    } else if attrs.first().0@ == name {
        Some(attrs.first().1)
    } else {
        attr_of(attrs.drop_first(), name)
    }
}

/// Whether two word sequences share at least one word.
pub open spec fn words_intersect(a: Seq<String>, b: Seq<String>) -> bool {
    exists|i: int, j: int|
        0 <= i < a.len() && 0 <= j < b.len() && (#[trigger] a[i])@ == (#[trigger] b[j])@
}

/// Whether a record passes one predicate.  A record missing the named
/// attribute, or carrying it in the other shape, does not pass.
pub open spec fn pred_holds(rec: Record, p: Predicate) -> bool {
    match p {
        Predicate::Range { attr, min, max } => match attr_of(rec.attributes@, attr@) {
            Some(AttrValue::Num(x)) => min <= x && x <= max,
            _ => false,
        },
        Predicate::SetIntersects { attr, values } => match attr_of(rec.attributes@, attr@) {
            Some(AttrValue::Words(ws)) => words_intersect(ws@, values@),
            _ => false,
        },
    }
}

/// Whether a record passes every predicate.
pub open spec fn passes(rec: Record, preds: Seq<Predicate>) -> bool {
    forall|i: int| 0 <= i < preds.len() ==> pred_holds(rec, #[trigger] preds[i])
}

/// The records that pass every predicate, in their given order.
pub open spec fn filter_records(records: Seq<Record>, preds: Seq<Predicate>) -> Seq<Record> {
    records.filter(|rec: Record| passes(rec, preds))
}

/// The first attribute under `name`, as `attr_of` finds it.
fn attr_find<'a>(attrs: &'a Vec<(String, AttrValue)>, name: &String) -> (r: Option<
    &'a AttrValue,
>)
    ensures
        match r {
            Some(v) => attr_of(attrs@, name@) == Some(*v),
            None => attr_of(attrs@, name@) is None,
        },
{
    let n = attrs.len();
    let mut i: usize = 0;
    proof {
        assert(attrs@.subrange(0, n as int) =~= attrs@);
    }
    while i < n
        invariant
            i <= n,
            n == attrs@.len(),
            attr_of(attrs@, name@) == attr_of(attrs@.subrange(i as int, n as int), name@),
        decreases n - i,
    {
        proof {
            assert(attrs@.subrange(i as int, n as int).first() == attrs@[i as int]);
            assert(attrs@.subrange(i as int, n as int).drop_first() =~= attrs@.subrange(
                i + 1,
                n as int,
            ));
        }
        if attrs[i].0 == *name {
            return Some(&attrs[i].1);
        }
        i += 1;
    }
    proof {
        assert(attrs@.subrange(n as int, n as int).len() == 0);
    }
    None
}

/// Whether `v` holds a word equal to `s`.
fn contains_str(v: &Vec<String>, s: &String) -> (r: bool)
    ensures
        r == exists|j: int| 0 <= j < v@.len() && (#[trigger] v@[j])@ == s@,
{
    let n = v.len();
    let mut j: usize = 0;
    while j < n
        invariant
            j <= n,
            n == v@.len(),
            forall|l: int| 0 <= l < j ==> (#[trigger] v@[l])@ != s@,
        decreases n - j,
    {
        if v[j] == *s {
            return true;
        }
        j += 1;
    }
    false
}

/// Whether the two word vectors share at least one word.
pub(crate) fn words_any(a: &Vec<String>, b: &Vec<String>) -> (r: bool)
    ensures
        r == words_intersect(a@, b@),
{
    let n = a.len();
    let mut i: usize = 0;
    while i < n
        invariant
            i <= n,
            n == a@.len(),
            forall|l: int, j: int|
                0 <= l < i && 0 <= j < b@.len() ==> (#[trigger] a@[l])@ != (#[trigger] b@[j])@,
        decreases n - i,
    {
        if contains_str(b, &a[i]) {
            return true;
        }
        i += 1;
    }
    false
}

/// Whether the record passes one predicate, as `pred_holds` says.
fn pred_eval(rec: &Record, p: &Predicate) -> (r: bool)
    ensures
        r == pred_holds(*rec, *p),
{
    match p {
        Predicate::Range { attr, min, max } => match attr_find(&rec.attributes, attr) {
            Some(v) => match v {
                AttrValue::Num(x) => *min <= *x && *x <= *max,
                _ => false,
            },
            None => false,
        },
        Predicate::SetIntersects { attr, values } => match attr_find(&rec.attributes, attr) {
            Some(v) => match v {
                AttrValue::Words(ws) => words_any(ws, values),
                _ => false,
            },
            None => false,
        },
    }
}

/// Whether the record passes every predicate.
fn passes_all(rec: &Record, preds: &Vec<Predicate>) -> (r: bool)
    ensures
        r == passes(*rec, preds@),
{
    let n = preds.len();
    let mut i: usize = 0;
    while i < n
        invariant
            i <= n,
            n == preds@.len(),
            forall|j: int| 0 <= j < i ==> pred_holds(*rec, #[trigger] preds@[j]),
        decreases n - i,
    {
        if !pred_eval(rec, &preds[i]) {
            return false;
        }
        i += 1;
    }
    true
}

/// A filter under a stronger predicate keeps no more than one under a
/// weaker predicate.
proof fn lemma_filter_implies(s: Seq<Record>, p1: spec_fn(Record) -> bool, p2: spec_fn(
    Record,
) -> bool)
    requires
        forall|x: Record| #[trigger] p1(x) ==> p2(x),
    ensures
        s.filter(p1).len() <= s.filter(p2).len(),
        forall|x: Record| #[trigger] s.filter(p1).contains(x) ==> s.filter(p2).contains(x),
    decreases s.len(),
{
    reveal(Seq::filter);
    if s.len() == 0 {
    } else {
        let dl = s.drop_last();
        lemma_filter_implies(dl, p1, p2);
        let f1 = s.filter(p1);
        let f2 = s.filter(p2);
        assert forall|x: Record| #[trigger] f1.contains(x) implies f2.contains(x) by {
            let i = choose|i: int| 0 <= i < f1.len() && f1[i] == x;
            if p1(s.last()) && i == f1.len() - 1 {
                assert(x == s.last());
                assert(p2(s.last()));
                assert(f2.last() == x);
            } else {
                assert(dl.filter(p1)[i] == x);
                assert(dl.filter(p1).contains(x));
                assert(dl.filter(p2).contains(x));
                let j = choose|j: int| 0 <= j < dl.filter(p2).len() && dl.filter(p2)[j] == x;
                assert(f2[j] == x);
            }
        }
    }
}

/// A filter keeps everything when every element passes.
proof fn lemma_filter_all(s: Seq<Record>, p: spec_fn(Record) -> bool)
    requires
        forall|x: Record| #[trigger] p(x),
    ensures
        s.filter(p) == s,
    decreases s.len(),
{
    reveal(Seq::filter);
    if s.len() == 0 {
    } else {
        lemma_filter_all(s.drop_last(), p);
        assert(s.filter(p) =~= s);
    }
}

/// Filtering is monotonic: one more predicate never grows the result,
/// and every record kept under the larger predicate set is also kept
/// under the smaller one.
pub proof fn lemma_filter_monotonic(records: Seq<Record>, preds: Seq<Predicate>, p: Predicate)
    ensures
        filter_records(records, preds.push(p)).len() <= filter_records(records, preds).len(),
        forall|x: Record|
            #[trigger] filter_records(records, preds.push(p)).contains(x) ==> filter_records(
                records,
                preds,
            ).contains(x),
{
    assert forall|rec: Record| #[trigger] passes(rec, preds.push(p)) implies passes(
        rec,
        preds,
    ) by {
        assert forall|i: int| 0 <= i < preds.len() implies pred_holds(
            rec,
            #[trigger] preds[i],
        ) by {
            assert(preds.push(p)[i] == preds[i]);
        }
    }
    lemma_filter_implies(
        records,
        |rec: Record| passes(rec, preds.push(p)),
        |rec: Record| passes(rec, preds),
    );
}

/// An empty predicate set keeps the whole input, in order.
pub proof fn lemma_filter_empty_preds(records: Seq<Record>)
    ensures
        filter_records(records, Seq::<Predicate>::empty()) == records,
{
    assert forall|rec: Record| #[trigger] passes(rec, Seq::<Predicate>::empty()) by {}
    lemma_filter_all(records, |rec: Record| passes(rec, Seq::<Predicate>::empty()));
}

/// The dot product against `q` is linear under scaling one argument.
proof fn lemma_dot_scale(q: Seq<i16>, v: Seq<i16>, w: Seq<i16>, alpha: int)
    requires
        w.len() == v.len(),
        forall|i: int| 0 <= i < v.len() ==> (#[trigger] w[i]) as int == alpha * (v[i] as int),
    ensures
        dot_spec(q, w) == alpha * dot_spec(q, v),
    decreases v.len(),
{
    if q.len() == 0 || v.len() == 0 {
        assert(alpha * 0 == 0) by (nonlinear_arith);
    } else {
        assert forall|i: int|
            0 <= i < v.drop_last().len() implies (#[trigger] w.drop_last()[i]) as int == alpha * (
        v.drop_last()[i] as int) by {
            assert(w.drop_last()[i] == w[i] && v.drop_last()[i] == v[i]);
        }
        lemma_dot_scale(q.drop_last(), v.drop_last(), w.drop_last(), alpha);
        let ql = q.last();
        let vl = v.last();
        let wl = w.last();
        assert((wl as int) == alpha * (vl as int));
        assert(ql * wl == alpha * (ql * vl)) by (nonlinear_arith)
            requires
                (wl as int) == alpha * (vl as int),
        ;
        assert(ql * wl + alpha * dot_spec(q.drop_last(), v.drop_last()) == alpha * (ql * vl
            + dot_spec(q.drop_last(), v.drop_last()))) by (nonlinear_arith)
            requires
                ql * wl == alpha * (ql * vl),
        ;
    }
}

/// The squared norm scales with the square of the scalar.
proof fn lemma_norm2_scale(v: Seq<i16>, w: Seq<i16>, alpha: int)
    requires
        w.len() == v.len(),
        forall|i: int| 0 <= i < v.len() ==> (#[trigger] w[i]) as int == alpha * (v[i] as int),
    ensures
        norm2_spec(w) == alpha * alpha * norm2_spec(v),
    decreases v.len(),
{
    if v.len() == 0 {
        assert(alpha * alpha * 0 == 0) by (nonlinear_arith);
    } else {
        assert forall|i: int|
            0 <= i < v.drop_last().len() implies (#[trigger] w.drop_last()[i]) as int == alpha * (
        v.drop_last()[i] as int) by {
            assert(w.drop_last()[i] == w[i] && v.drop_last()[i] == v[i]);
        }
        lemma_norm2_scale(v.drop_last(), w.drop_last(), alpha);
        let vl = v.last();
        let wl = w.last();
        assert(wl * wl + alpha * alpha * norm2_spec(v.drop_last()) == alpha * alpha * (vl * vl
            + norm2_spec(v.drop_last()))) by (nonlinear_arith)
            requires
                (wl as int) == alpha * (vl as int),
        ;
    }
}

/// Cosine scoring is scale-invariant: against one query, a vector and a
/// positively scaled copy of it are tied, so either may stand for the
/// other in a ranking.
pub proof fn lemma_score_scale_invariant(q: Seq<i16>, v: Seq<i16>, w: Seq<i16>, alpha: int)
    requires
        alpha > 0,
        q.len() == v.len(),
        w.len() == v.len(),
        q.len() <= MAX_DIM,
        forall|i: int| 0 <= i < v.len() ==> (#[trigger] w[i]) as int == alpha * (v[i] as int),
    ensures
        score_tied(spec_score(q, v), spec_score(q, w)),
{
    lemma_norm2_scale(v, w, alpha);
    lemma_dot_scale(q, v, w, alpha);
    lemma_norm2_nonneg(q);
    lemma_norm2_nonneg(v);
    lemma_norm2_nonneg(w);
    lemma_spec_score_bounded(q, v);
    lemma_spec_score_bounded(q, w);
    lemma_dot_bound(q, v);
    lemma_dot_bound(q, w);
    lemma_dot_bound(q, q);
    lemma_dot_bound(v, v);
    lemma_dot_bound(w, w);
    let nv = norm2_spec(v);
    let nw = norm2_spec(w);
    let nq = norm2_spec(q);
    let dv = dot_spec(q, v);
    let dw = dot_spec(q, w);
    assert(q.len() * 0x4000_0000 <= 0x400_0000_0000) by (nonlinear_arith)
        requires
            q.len() <= 4096,
    ;
    assert((dv as i64) == dv && (dw as i64) == dw);
    assert((nv as i64) == nv && (nw as i64) == nw && (nq as i64) == nq);
    assert(nw == 0 <==> nv == 0) by (nonlinear_arith)
        requires
            nw == alpha * alpha * nv,
            alpha > 0,
            nv >= 0,
    ;
    if nq == 0 || nv == 0 {
    } else {
        assert(dw >= 0 <==> dv >= 0) by (nonlinear_arith)
            requires
                dw == alpha * dv,
                alpha > 0,
        ;
        assert(dv * dv * nw == dw * dw * nv) by (nonlinear_arith)
            requires
                dw == alpha * dv,
                nw == alpha * alpha * nv,
        ;
    }
}

/// Inserting adds one element.
proof fn lemma_insert_ranked_len(s: Seq<(int, ScoredResult)>, x: (int, ScoredResult))
    ensures
        insert_ranked(s, x).len() == s.len() + 1,
    decreases s.len(),
{
    if s.len() == 0 {
    } else if ranked_before(x, s.first()) {
    } else {
        lemma_insert_ranked_len(s.drop_first(), x);
    }
}

/// Sorting keeps the length.
proof fn lemma_sort_ranked_len(s: Seq<(int, ScoredResult)>)
    ensures
        sort_ranked(s).len() == s.len(),
    decreases s.len(),
{
    if s.len() == 0 {
    } else {
        lemma_sort_ranked_len(s.drop_last());
        lemma_insert_ranked_len(sort_ranked(s.drop_last()), s.last());
    }
}

/// Inserting adds exactly the new element to the contents.
proof fn lemma_insert_ranked_multiset(s: Seq<(int, ScoredResult)>, x: (int, ScoredResult))
    ensures
        insert_ranked(s, x).to_multiset() == s.to_multiset().insert(x),
    decreases s.len(),
{
    broadcast use vstd::seq_lib::group_to_multiset_ensures;

    if s.len() == 0 {
        assert(seq![x] =~= Seq::<(int, ScoredResult)>::empty().push(x));
        assert(s =~= Seq::<(int, ScoredResult)>::empty());
        assert(insert_ranked(s, x).to_multiset() =~= s.to_multiset().insert(x));
    } else if ranked_before(x, s.first()) {
        vstd::seq_lib::lemma_multiset_commutative(seq![x], s);
        assert(seq![x] =~= Seq::<(int, ScoredResult)>::empty().push(x));
        assert(insert_ranked(s, x).to_multiset() =~= s.to_multiset().insert(x));
    } else {
        let t = s.drop_first();
        lemma_insert_ranked_multiset(t, x);
        vstd::seq_lib::lemma_multiset_commutative(seq![s.first()], insert_ranked(t, x));
        vstd::seq_lib::lemma_multiset_commutative(seq![s.first()], t);
        assert(seq![s.first()] + t =~= s);
        assert(seq![s.first()] =~= Seq::<(int, ScoredResult)>::empty().push(s.first()));
        assert(insert_ranked(s, x).to_multiset() =~= s.to_multiset().insert(x));
    }
}

/// Sorting keeps the contents.
proof fn lemma_sort_ranked_multiset(s: Seq<(int, ScoredResult)>)
    ensures
        sort_ranked(s).to_multiset() == s.to_multiset(),
    decreases s.len(),
{
    broadcast use vstd::seq_lib::group_to_multiset_ensures;

    if s.len() == 0 {
    } else {
        lemma_sort_ranked_multiset(s.drop_last());
        lemma_insert_ranked_multiset(sort_ranked(s.drop_last()), s.last());
        assert(s.drop_last().push(s.last()) =~= s);
        assert(sort_ranked(s).to_multiset() =~= s.to_multiset());
    }
}

/// No element ranks strictly before its predecessor.
spec fn ranked_sorted_adj(s: Seq<(int, ScoredResult)>) -> bool {
    forall|i: int, j: int|
        0 <= i && j == i + 1 && j < s.len() ==> !ranked_before(#[trigger] s[j], #[trigger] s[i])
}

/// The strict ranking order never holds both ways.
proof fn lemma_ranked_before_asym(a: (int, ScoredResult), b: (int, ScoredResult))
    ensures
        ranked_before(a, b) ==> !ranked_before(b, a),
{
}

/// Inserting into an adjacently sorted sequence keeps it adjacently
/// sorted.
proof fn lemma_insert_ranked_sorted(s: Seq<(int, ScoredResult)>, x: (int, ScoredResult))
    requires
        ranked_sorted_adj(s),
    ensures
        ranked_sorted_adj(insert_ranked(s, x)),
    decreases s.len(),
{
    let t = insert_ranked(s, x);
    if s.len() == 0 {
        assert(t.len() == 1);
    } else if ranked_before(x, s.first()) {
        lemma_ranked_before_asym(x, s.first());
        assert forall|i: int, j: int| 0 <= i && j == i + 1 && j < t.len() implies !ranked_before(
            #[trigger] t[j],
            #[trigger] t[i],
        ) by {
            if i == 0 {
                assert(t[0] == x && t[1] == s[0]);
            } else {
                assert(t[i] == s[i - 1] && t[j] == s[j - 1]);
            }
        }
    } else {
        let tail = s.drop_first();
        assert forall|i: int, j: int|
            0 <= i && j == i + 1 && j < tail.len() implies !ranked_before(
            #[trigger] tail[j],
            #[trigger] tail[i],
        ) by {
            assert(tail[i] == s[i + 1] && tail[j] == s[j + 1]);
        }
        lemma_insert_ranked_sorted(tail, x);
        lemma_insert_ranked_len(tail, x);
        let inner = insert_ranked(tail, x);
        assert(t == seq![s.first()] + inner);
        // the head of the inserted tail either is `x`, which does not go
        // before the old first element, or is the old second element
        if tail.len() == 0 {
            assert(inner == seq![x]);
            assert(!ranked_before(inner[0], s[0]));
        } else if ranked_before(x, tail.first()) {
            assert(inner[0] == x);
            assert(!ranked_before(inner[0], s[0]));
        } else {
            assert(inner[0] == tail[0]);
            assert(tail[0] == s[1]);
            assert(!ranked_before(inner[0], s[0]));
        }
        assert forall|i: int, j: int| 0 <= i && j == i + 1 && j < t.len() implies !ranked_before(
            #[trigger] t[j],
            #[trigger] t[i],
        ) by {
            if i == 0 {
                assert(t[0] == s[0] && t[1] == inner[0]);
            } else {
                assert(t[i] == inner[i - 1] && t[j] == inner[j - 1]);
            }
        }
    }
}

/// The sorted sequence is adjacently sorted.
proof fn lemma_sort_ranked_sorted(s: Seq<(int, ScoredResult)>)
    ensures
        ranked_sorted_adj(sort_ranked(s)),
    decreases s.len(),
{
    if s.len() == 0 {
    } else {
        lemma_sort_ranked_sorted(s.drop_last());
        lemma_insert_ranked_sorted(sort_ranked(s.drop_last()), s.last());
    }
}

/// A comparable score of a real vector carries a positive squared norm.
pub open spec fn score_positive(s: Score) -> bool {
    match s {
        Score::NotComparable => true,
        Score::Cos { vnorm2, .. } => vnorm2 > 0,
    }
}

/// Chaining two cross-multiplied quotient comparisons, at least one
/// strict, through a shared middle term.
#[verifier::nonlinear]
proof fn lemma_cross_trans(d1: int, v1: int, d2: int, v2: int, d3: int, v3: int)
    requires
        v1 > 0,
        v2 > 0,
        v3 > 0,
        d1 * d1 * v2 >= d2 * d2 * v1,
        d2 * d2 * v3 >= d3 * d3 * v2,
        d1 * d1 * v2 > d2 * d2 * v1 || d2 * d2 * v3 > d3 * d3 * v2,
    ensures
        d1 * d1 * v3 > d3 * d3 * v1,
{
}

/// The strict score order is transitive.
proof fn lemma_sb_trans(a: Score, b: Score, c: Score)
    requires
        score_positive(a),
        score_positive(b),
        score_positive(c),
        score_before(a, b),
        score_before(b, c),
    ensures
        score_before(a, c),
{
    match (a, b, c) {
        (
            Score::Cos { dot: da, vnorm2: va, .. },
            Score::Cos { dot: db, vnorm2: vb, .. },
            Score::Cos { dot: dc, vnorm2: vc, .. },
        ) => {
            if da >= 0 && dc >= 0 {
                lemma_cross_trans(da as int, va as int, db as int, vb as int, dc as int,
                    vc as int);
            } else if da < 0 {
                lemma_cross_trans(dc as int, vc as int, db as int, vb as int, da as int,
                    va as int);
            }
        },
        _ => {},
    }
}

/// A score strictly before one of two tied scores is strictly before
/// the other.
proof fn lemma_sb_tie(a: Score, b: Score, c: Score)
    requires
        score_positive(a),
        score_positive(b),
        score_positive(c),
        score_before(a, b),
        score_tied(b, c),
    ensures
        score_before(a, c),
{
    match (a, b, c) {
        (
            Score::Cos { dot: da, vnorm2: va, .. },
            Score::Cos { dot: db, vnorm2: vb, .. },
            Score::Cos { dot: dc, vnorm2: vc, .. },
        ) => {
            if da >= 0 && dc >= 0 {
                lemma_cross_trans(da as int, va as int, db as int, vb as int, dc as int,
                    vc as int);
            } else if da < 0 {
                lemma_cross_trans(dc as int, vc as int, db as int, vb as int, da as int,
                    va as int);
            }
        },
        _ => {},
    }
}

/// A score tied with one strictly before another is strictly before it
/// too.
proof fn lemma_tie_sb(a: Score, b: Score, c: Score)
    requires
        score_positive(a),
        score_positive(b),
        score_positive(c),
        score_tied(a, b),
        score_before(b, c),
    ensures
        score_before(a, c),
{
    match (a, b, c) {
        (
            Score::Cos { dot: da, vnorm2: va, .. },
            Score::Cos { dot: db, vnorm2: vb, .. },
            Score::Cos { dot: dc, vnorm2: vc, .. },
        ) => {
            if da >= 0 && dc >= 0 {
                lemma_cross_trans(da as int, va as int, db as int, vb as int, dc as int,
                    vc as int);
            } else if da < 0 {
                lemma_cross_trans(dc as int, vc as int, db as int, vb as int, da as int,
                    va as int);
            }
        },
        _ => {},
    }
}

/// The ranking order with its index tie-break is transitive.
proof fn lemma_ranked_before_trans(
    a: (int, ScoredResult),
    b: (int, ScoredResult),
    c: (int, ScoredResult),
)
    requires
        score_positive(a.1.score),
        score_positive(b.1.score),
        score_positive(c.1.score),
        ranked_before(a, b),
        ranked_before(b, c),
    ensures
        ranked_before(a, c),
{
    if score_before(a.1.score, b.1.score) {
        if score_before(b.1.score, c.1.score) {
            lemma_sb_trans(a.1.score, b.1.score, c.1.score);
        } else {
            lemma_sb_tie(a.1.score, b.1.score, c.1.score);
        }
    } else {
        if score_before(b.1.score, c.1.score) {
            lemma_tie_sb(a.1.score, b.1.score, c.1.score);
        } else {
            // two ties: the tie between the outer scores follows, since a
            // strict comparison either way would chain to a contradiction
            if score_before(a.1.score, c.1.score) {
            } else if score_before(c.1.score, a.1.score) {
                lemma_sb_tie(c.1.score, a.1.score, b.1.score);
                lemma_ranked_before_asym(b, c);
            }
        }
    }
}

/// In a ranked sequence with distinct positions, adjacent order gives
/// the strict order between any earlier and any later element.
proof fn lemma_ranked_chain(s: Seq<(int, ScoredResult)>, i: int, j: int)
    requires
        ranked_sorted_adj(s),
        forall|p: int| 0 <= p < s.len() ==> score_positive((#[trigger] s[p]).1.score),
        forall|p: int, q: int| 0 <= p < q < s.len() ==> (#[trigger] s[p]).0 != (#[trigger] s[q]).0,
        0 <= i < j < s.len(),
    ensures
        ranked_before(s[i], s[j]),
    decreases j - i,
{
    if j == i + 1 {
        assert(!ranked_before(s[j], s[i]));
        assert(s[i].0 != s[j].0);
    } else {
        lemma_ranked_chain(s, i, j - 1);
        assert(!ranked_before(s[j], s[j - 1]));
        assert(s[j - 1].0 != s[j].0);
        assert(ranked_before(s[j - 1], s[j]));
        lemma_ranked_before_trans(s[i], s[j - 1], s[j]);
    }
}

/// A sequence whose contents are pairwise distinct in some view has a
/// count of at most one for each element.
proof fn lemma_distinct_entries_in_perm(
    sorted: Seq<(int, ScoredResult)>,
    idx: Seq<(int, ScoredResult)>,
)
    requires
        sorted.to_multiset() == idx.to_multiset(),
        forall|p: int, q: int|
            0 <= p < q < idx.len() ==> (#[trigger] idx[p]).0 != (#[trigger] idx[q]).0,
    ensures
        forall|p: int, q: int|
            0 <= p < q < sorted.len() ==> (#[trigger] sorted[p]).0 != (#[trigger] sorted[q]).0,
{
    broadcast use vstd::seq_lib::group_to_multiset_ensures;

    assert forall|p: int, q: int|
        0 <= p < q < sorted.len() implies (#[trigger] sorted[p]).0 != (#[trigger] sorted[q]).0 by {
        if sorted[p].0 == sorted[q].0 {
            let e1 = sorted[p];
            let e2 = sorted[q];
            assert(sorted.contains(e1) && sorted.contains(e2));
            assert(idx.to_multiset().count(e1) > 0);
            assert(idx.to_multiset().count(e2) > 0);
            assert(idx.contains(e1) && idx.contains(e2));
            let p1 = choose|x: int| 0 <= x < idx.len() && idx[x] == e1;
            let p2 = choose|x: int| 0 <= x < idx.len() && idx[x] == e2;
            if e1 != e2 {
                assert(idx[p1].0 == idx[p2].0 && p1 != p2);
            } else {
                // the same pair would have to occur twice in `idx`
                let s1 = sorted.remove(p);
                assert(s1.to_multiset() =~= sorted.to_multiset().remove(e1));
                assert(s1[q - 1] == e1);
                assert(s1.contains(e1));
                assert(s1.to_multiset().count(e1) > 0);
                assert(sorted.to_multiset().count(e1) >= 2);
                let i1 = idx.remove(p1);
                assert(i1.to_multiset() =~= idx.to_multiset().remove(e1));
                assert(i1.to_multiset().count(e1) > 0);
                assert(i1.contains(e1));
                let p3 = choose|x: int| 0 <= x < i1.len() && i1[x] == e1;
                idx.remove_ensures(p1);
                let p4: int = if p3 < p1 { p3 } else { p3 + 1 };
                assert(idx[p4] == e1 && p4 != p1);
                assert(idx[p1].0 == idx[p4].0);
            }
        }
    }
}

/// A ranking holds `k` results, or all of them when there are fewer
/// records than slots; in particular zero slots give an empty ranking.
pub proof fn lemma_rank_len(records: Seq<Record>, q: Seq<i16>, k: int)
    requires
        0 <= k,
    ensures
        rank_spec(records, q, k).len() == if k <= records.len() {
            k
        } else {
            records.len() as int
        },
{
    let idx = indexed(scored_of(records, q));
    lemma_sort_ranked_len(idx);
}

/// A rank over at least as many slots as records returns every record:
/// the result holds exactly the input records, each under its own score,
/// in descending score order (each result ranks no better than its
/// predecessor).
pub proof fn lemma_rank_complete(records: Seq<Record>, q: Seq<i16>, k: int)
    requires
        k >= records.len(),
        q.len() <= MAX_DIM,
        forall|i: int| 0 <= i < records.len() ==> (#[trigger] records[i]).vector@.len() == q.len(),
    ensures
        rank_spec(records, q, k).len() == records.len(),
        rank_spec(records, q, k).map_values(|sr: ScoredResult| sr.record).to_multiset()
            == records.to_multiset(),
        forall|i: int, j: int|
            0 <= i < j < rank_spec(records, q, k).len() ==> !score_before(
                (#[trigger] rank_spec(records, q, k)[j]).score,
                (#[trigger] rank_spec(records, q, k)[i]).score,
            ),
        forall|i: int|
            0 <= i < rank_spec(records, q, k).len() ==> (#[trigger] rank_spec(records, q, k)[i]).score
                == spec_score(q, rank_spec(records, q, k)[i].record.vector@),
{
    broadcast use vstd::seq_lib::group_to_multiset_ensures;

    let scored = scored_of(records, q);
    let idx = indexed(scored);
    let sorted = sort_ranked(idx);
    lemma_sort_ranked_len(idx);
    lemma_sort_ranked_multiset(idx);
    lemma_sort_ranked_sorted(idx);
    let stripped = sorted.map_values(|p: (int, ScoredResult)| p.1);
    let out = rank_spec(records, q, k);
    assert(out =~= stripped);
    // every sorted element is one of the indexed scored elements
    assert forall|i: int| 0 <= i < sorted.len() implies idx.contains(#[trigger] sorted[i]) by {
        assert(sorted.to_multiset().count(sorted[i]) > 0);
        assert(idx.to_multiset().count(sorted[i]) > 0);
    }
    assert forall|i: int|
        0 <= i < out.len() implies (#[trigger] out[i]).score == spec_score(
        q,
        out[i].record.vector@,
    ) by {
        assert(out[i] == sorted[i].1);
        assert(idx.contains(sorted[i]));
        let j = choose|j: int| 0 <= j < idx.len() && idx[j] == sorted[i];
        assert(idx[j].1 == scored[j]);
        assert(scored[j].score == spec_score(q, records[j].vector@));
        assert(scored[j].record == records[j]);
    }
    assert forall|p: int|
        0 <= p < sorted.len() implies score_positive((#[trigger] sorted[p]).1.score) by {
        assert(idx.contains(sorted[p]));
        let j = choose|j: int| 0 <= j < idx.len() && idx[j] == sorted[p];
        assert(sorted[p].1.score == spec_score(q, records[j].vector@));
        lemma_spec_score_bounded(q, records[j].vector@);
    }
    lemma_distinct_entries_in_perm(sorted, idx);
    assert forall|i: int, j: int| 0 <= i < j < out.len() implies !score_before(
        (#[trigger] out[j]).score,
        (#[trigger] out[i]).score,
    ) by {
        lemma_ranked_chain(sorted, i, j);
        lemma_ranked_before_asym(sorted[i], sorted[j]);
        assert(!ranked_before(sorted[j], sorted[i]));
        assert(out[i] == sorted[i].1 && out[j] == sorted[j].1);
    }
    // the records of the result are exactly the input records
    let recs = out.map_values(|sr: ScoredResult| sr.record);
    lemma_strip_perm(sorted, idx);
    assert(recs =~= Seq::new(sorted.len(), |i: int| sorted[i].1.record));
    assert(Seq::new(idx.len(), |i: int| idx[i].1.record) =~= records);
    assert(recs.to_multiset() == records.to_multiset());
}

/// Sequences of indexed results with the same contents strip to record
/// sequences with the same contents.
proof fn lemma_strip_perm(a: Seq<(int, ScoredResult)>, b: Seq<(int, ScoredResult)>)
    requires
        a.to_multiset() == b.to_multiset(),
    ensures
        Seq::new(a.len(), |i: int| a[i].1.record).to_multiset() == Seq::new(
            b.len(),
            |i: int| b[i].1.record,
        ).to_multiset(),
    decreases a.len(),
{
    broadcast use vstd::seq_lib::group_to_multiset_ensures;

    let fa = Seq::new(a.len(), |i: int| a[i].1.record);
    let fb = Seq::new(b.len(), |i: int| b[i].1.record);
    if a.len() == 0 {
        assert(a.to_multiset().len() == 0);
        assert(b.len() == 0);
        assert(fa =~= fb);
    } else {
        let x = a.last();
        assert(a[a.len() - 1] == x);
        assert(a.contains(x));
        assert(b.to_multiset().count(x) > 0);
        assert(b.contains(x));
        let j = choose|j: int| 0 <= j < b.len() && b[j] == x;
        let a1 = a.drop_last();
        let b1 = b.remove(j);
        assert(a1.push(x) =~= a);
        assert(a.to_multiset() =~= a1.to_multiset().insert(x));
        assert(b1.to_multiset() =~= b.to_multiset().remove(x));
        assert(a1.to_multiset() =~= b1.to_multiset());
        lemma_strip_perm(a1, b1);
        let fa1 = Seq::new(a1.len(), |i: int| a1[i].1.record);
        let fb1 = Seq::new(b1.len(), |i: int| b1[i].1.record);
        assert(fa1.push(x.1.record) =~= fa);
        assert(fa.to_multiset() =~= fa1.to_multiset().insert(x.1.record));
        assert(fb1 =~= fb.remove(j));
        assert(fb.remove(j).to_multiset() =~= fb.to_multiset().remove(fb[j]));
        assert(fb[j] == x.1.record);
        assert(fb.contains(fb[j]));
        assert(fb.to_multiset().count(fb[j]) > 0);
        assert(fb.to_multiset() =~= fb.to_multiset().remove(fb[j]).insert(x.1.record));
        assert(fa.to_multiset() =~= fb.to_multiset());
    }
}

impl RankedRetriever {
    /// Keeps the records that pass every predicate, in their given
    /// order.  An empty predicate set keeps everything.
    pub fn filter(&self, records: Vec<Record>, predicates: &Vec<Predicate>) -> (r: Vec<
        Record,
    >)
        ensures
            r@ == filter_records(records@, predicates@),
    {
        let ghost orig = records@;
        let mut pending = records;
        let n = pending.len();
        let mut out: Vec<Record> = Vec::new();
        let mut i: usize = 0;
        proof {
            reveal(Seq::filter);
            assert(out@ =~= filter_records(orig.subrange(0, 0), predicates@));
        }
        while i < n
            invariant
                i <= n,
                n == orig.len(),
                pending@ == orig.subrange(i as int, n as int),
                out@ == filter_records(orig.subrange(0, i as int), predicates@),
            decreases n - i,
        {
            let rec = pending.remove(0);
            proof {
                assert(rec == orig[i as int]);
                assert(pending@ =~= orig.subrange(i + 1, n as int));
            }
            let keep = passes_all(&rec, predicates);
            if keep {
                out.push(rec);
            }
            proof {
                reveal(Seq::filter);
                assert(orig.subrange(0, i + 1).drop_last() =~= orig.subrange(0, i as int));
                assert(orig.subrange(0, i + 1).last() == orig[i as int]);
            }
            i += 1;
        }
        proof {
            assert(orig.subrange(0, n as int) =~= orig);
        }
        out
    }

    /// Scores `candidate` against `query`: the exact cosine data of the
    /// two vectors, the `NotComparable` sentinel when either has zero
    /// norm, and an error when the dimensions differ.
    pub fn score(&self, query: &Vec<i16>, candidate: &Vec<i16>) -> (r: Result<Score, CoreError>)
        requires
            query@.len() <= MAX_DIM,
        ensures
            query@.len() == candidate@.len() ==> r == Ok::<Score, CoreError>(
                spec_score(query@, candidate@),
            ),
            query@.len() != candidate@.len() ==> r == Err::<Score, CoreError>(
                CoreError::DimensionMismatch,
            ),
    {
        if query.len() != candidate.len() {
            return Err(CoreError::DimensionMismatch);
        }
        let qn = dot_i64(query, query);
        let vn = dot_i64(candidate, candidate);
        if qn == 0 || vn == 0 {
            Ok(Score::NotComparable)
        } else {
            let d = dot_i64(query, candidate);
            proof {
                lemma_spec_score_bounded(query@, candidate@);
            }
            Ok(Score::Cos { dot: d, qnorm2: qn, vnorm2: vn })
        }
    }

    /// Ranks `records` against `query`: every record is scored, the
    /// scored records are sorted by descending score with ties kept in
    /// input order, and the first `k` are returned.  A record whose
    /// dimension differs from the query's fails the whole call at once.
    pub fn rank(&self, records: Vec<Record>, query: &Vec<i16>, k: usize) -> (r: Result<
        Vec<ScoredResult>,
        CoreError,
    >)
        requires
            query@.len() <= MAX_DIM,
        ensures
            (r is Err) <==> has_mismatch(records@, query@),
            r matches Err(e) ==> e == CoreError::DimensionMismatch,
            r matches Ok(rs) ==> rs@ == rank_spec(records@, query@, k as int),
    {
        let ghost orig = records@;
        let mut pending = records;
        let n = pending.len();
        let mut scored: Vec<ScoredResult> = Vec::new();
        let mut i: usize = 0;
        while i < n
            invariant
                i <= n,
                n == orig.len(),
                orig == records@,
                query@.len() <= MAX_DIM,
                pending@ == orig.subrange(i as int, n as int),
                scored@ == scored_of(orig, query@).subrange(0, i as int),
                forall|j: int|
                    0 <= j < i ==> (#[trigger] orig[j]).vector@.len() == query@.len(),
            decreases n - i,
        {
            let rec = pending.remove(0);
            proof {
                assert(rec == orig[i as int]);
                assert(pending@ =~= orig.subrange(i + 1, n as int));
            }
            if rec.vector.len() != query.len() {
                proof {
                    assert(0 <= (i as int) && (i as int) < orig.len());
                    assert(orig[i as int].vector@.len() != query@.len());
                    assert(has_mismatch(orig, query@));
                }
                return Err(CoreError::DimensionMismatch);
            }
            let s = match self.score(query, &rec.vector) {
                Ok(s) => s,
                Err(e) => {
                    return Err(e);
                },
            };
            scored.push(ScoredResult { score: s, record: rec });
            proof {
                assert(scored@ =~= scored_of(orig, query@).subrange(0, i + 1));
            }
            i += 1;
        }
        proof {
            assert(scored@ =~= scored_of(orig, query@));
        }
        let ghost idxsc = indexed(scored_of(orig, query@));
        let m = n;
        let mut out: Vec<ScoredResult> = Vec::new();
        let ghost mut gout = Seq::<(int, ScoredResult)>::empty();
        let mut i: usize = 0;
        proof {
            assert(gout =~= sort_ranked(idxsc.subrange(0, 0)));
            assert(out@ =~= gout.map_values(|p: (int, ScoredResult)| p.1));
        }
        while i < m
            invariant
                i <= m,
                m == orig.len(),
                query@.len() <= MAX_DIM,
                idxsc == indexed(scored_of(orig, query@)),
                scored@ == scored_of(orig, query@).subrange(i as int, m as int),
                gout == sort_ranked(idxsc.subrange(0, i as int)),
                gout.len() == i,
                out@ == gout.map_values(|p: (int, ScoredResult)| p.1),
                forall|j: int| 0 <= j < gout.len() ==> 0 <= (#[trigger] gout[j]).0 < i,
                forall|j: int|
                    0 <= j < gout.len() ==> score_bounded((#[trigger] gout[j]).1.score),
                forall|j: int|
                    0 <= j < m ==> (#[trigger] orig[j]).vector@.len() == query@.len(),
            decreases m - i,
        {
            let x = scored.remove(0);
            let ghost gx = (i as int, x);
            proof {
                assert(scored_of(orig, query@).subrange(i as int, m as int)[0]
                    == scored_of(orig, query@)[i as int]);
                assert(x == scored_of(orig, query@)[i as int]);
                assert(scored@ =~= scored_of(orig, query@).subrange(i + 1, m as int));
                assert(idxsc[i as int] == gx);
                lemma_spec_score_bounded(query@, orig[i as int].vector@);
                assert(x.score == spec_score(query@, orig[i as int].vector@));
                assert(score_bounded(x.score));
            }
            let mut p: usize = 0;
            while p < out.len() && !score_before_exec(&x.score, &out[p].score)
                invariant
                    p <= out.len(),
                    out@ == gout.map_values(|q2: (int, ScoredResult)| q2.1),
                    gx == (i as int, x),
                    score_bounded(x.score),
                    forall|j: int| 0 <= j < gout.len() ==> 0 <= (#[trigger] gout[j]).0 < i,
                    forall|j: int|
                        0 <= j < gout.len() ==> score_bounded((#[trigger] gout[j]).1.score),
                    forall|j: int| 0 <= j < p ==> !ranked_before(gx, #[trigger] gout[j]),
                decreases out.len() - p,
            {
                proof {
                    assert(out@[p as int] == gout[p as int].1);
                    assert(!score_before(x.score, gout[p as int].1.score));
                    assert(gout[p as int].0 < gx.0);
                    assert(!ranked_before(gx, gout[p as int]));
                }
                p += 1;
            }
            proof {
                if p < out.len() {
                    assert(out@[p as int] == gout[p as int].1);
                    assert(score_before(x.score, gout[p as int].1.score));
                    assert(ranked_before(gx, gout[p as int]));
                }
                gout.insert_ensures(p as int, gx);
                lemma_insert_ranked_at(gout, gx, p as int);
            }
            out.insert(p, x);
            proof {
                let g2 = gout.insert(p as int, gx);
                assert(idxsc.subrange(0, i + 1).drop_last() =~= idxsc.subrange(0, i as int));
                assert(idxsc.subrange(0, i + 1).last() == gx);
                assert(sort_ranked(idxsc.subrange(0, i + 1)) == insert_ranked(
                    sort_ranked(idxsc.subrange(0, i as int)),
                    gx,
                ));
                assert(out@ =~= g2.map_values(|q2: (int, ScoredResult)| q2.1));
                gout = g2;
            }
            i += 1;
        }
        proof {
            assert(idxsc.subrange(0, m as int) =~= idxsc);
        }
        if k < out.len() {
            let _rest = out.split_off(k);
        }
        proof {
            assert(out@ =~= rank_spec(orig, query@, k as int));
            assert(!has_mismatch(orig, query@));
        }
        Ok(out)
    }
}

} // verus!
