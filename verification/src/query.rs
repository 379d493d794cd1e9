use vstd::prelude::*;

use crate::record::Record;
use crate::record::RecordModel;
use crate::text::lower_of;
use crate::text::sub_related;
use crate::text::sub_related_exec;
use crate::text::to_lower;

verus! {

/// The fuzzy ranked search request. Every field is optional: an absent
/// field applies no filter and contributes no score; an absent limit means
/// 100.
pub struct FlexibleQuery {
    pub owner: Option<String>,
    pub kinds: Option<Vec<String>>,
    pub subjects: Option<Vec<String>>,
    pub created_after: Option<u64>,
    pub created_before: Option<u64>,
    pub limit: Option<usize>,
}

/// The mathematical shape of a fuzzy search request. An absent term list
/// and an empty one behave alike, so both appear as the empty sequence.
pub struct FlexModel {
    pub owner: Option<Seq<char>>,
    pub kinds: Seq<Seq<char>>,
    pub subjects: Seq<Seq<char>>,
    pub created_after: Option<u64>,
    pub created_before: Option<u64>,
    pub limit: Option<usize>,
}

/// An optional term list, flattened: absent means empty.
pub open spec fn opt_terms(v: Option<Vec<String>>) -> Seq<Seq<char>> {
    match v {
        Some(terms) => terms.deep_view(),
        None => Seq::empty(),
    }
}

impl View for FlexibleQuery {
    type V = FlexModel;

    open spec fn view(&self) -> FlexModel {
        FlexModel {
            owner: self.owner.deep_view(),
            kinds: opt_terms(self.kinds),
            subjects: opt_terms(self.subjects),
            created_after: self.created_after,
            created_before: self.created_before,
            limit: self.limit,
        }
    }
}

/// The strict boolean filter search request. Every field is optional: an
/// absent field imposes no constraint; an absent limit means 100.
pub struct StrictQuery {
    pub owner: Option<String>,
    pub kinds: Option<Vec<String>>,
    pub subjects: Option<Vec<String>>,
    pub keywords: Option<Vec<String>>,
    pub tags: Option<Vec<String>>,
    pub importance_min: Option<u8>,
    pub importance_max: Option<u8>,
    pub created_after: Option<u64>,
    pub created_before: Option<u64>,
    pub limit: Option<usize>,
}

/// The mathematical shape of a strict search request.
pub struct StrictModel {
    pub owner: Option<Seq<char>>,
    pub kinds: Seq<Seq<char>>,
    pub subjects: Seq<Seq<char>>,
    pub keywords: Seq<Seq<char>>,
    pub tags: Seq<Seq<char>>,
    pub importance_min: Option<u8>,
    pub importance_max: Option<u8>,
    pub created_after: Option<u64>,
    pub created_before: Option<u64>,
    pub limit: Option<usize>,
}

impl View for StrictQuery {
    type V = StrictModel;

    open spec fn view(&self) -> StrictModel {
        StrictModel {
            owner: self.owner.deep_view(),
            kinds: opt_terms(self.kinds),
            subjects: opt_terms(self.subjects),
            keywords: opt_terms(self.keywords),
            tags: opt_terms(self.tags),
            importance_min: self.importance_min,
            importance_max: self.importance_max,
            created_after: self.created_after,
            created_before: self.created_before,
            limit: self.limit,
        }
    }
}

/// The limit actually applied: the requested one, or 100 when absent.
pub open spec fn effective_limit(limit: Option<usize>) -> int {
    match limit {
        Some(l) => l as int,
        None => 100,
    }
}

/// Scores are integer tenths: an exact kind match is worth 1.0, so 10.
pub const KIND_EXACT: u32 = 10;

/// A kind substring match is worth 0.5, so 5.
pub const KIND_PARTIAL: u32 = 5;

/// An exact subject match is worth 1.0, so 10.
pub const SUBJECT_EXACT: u32 = 10;

/// A subject substring match is worth 0.6, so 6.
pub const SUBJECT_PARTIAL: u32 = 6;

/// An object related to a queried subject is worth 0.8, so 8.
pub const CROSS_BONUS: u32 = 8;

/// An explicit time bound in the query is worth 1.0, so 10.
pub const TIME_BONUS: u32 = 10;

/// A record is kept only when its score reaches 2.0, so 20.
pub const SCORE_FLOOR: u32 = 20;

/// The kind contribution: the queried kinds are scanned in order and the
/// first that matches decides, an exact (case-sensitive) match scoring 10
/// and a substring containment in either direction scoring 5.
pub open spec fn kind_score(qkinds: Seq<Seq<char>>, kind: Seq<char>) -> int
    decreases qkinds.len(),
{
    if qkinds.len() == 0 {
        0
    } else if qkinds[0] == kind {
        KIND_EXACT as int
    } else if sub_related(qkinds[0], kind) {
        KIND_PARTIAL as int
    } else {
        kind_score(qkinds.drop_first(), kind)
    }
}

/// One lowercased query subject against the record subjects, scanned in
/// order: the first record subject that matches at all decides, equality
/// scoring 10 and containment in either direction scoring 6.
pub open spec fn subject_hit(q_lc: Seq<char>, subs: Seq<Seq<char>>) -> int
    decreases subs.len(),
{
    if subs.len() == 0 {
        0
    } else if lower_of(subs[0]) == q_lc {
        SUBJECT_EXACT as int
    } else if sub_related(lower_of(subs[0]), q_lc) {
        SUBJECT_PARTIAL as int
    } else {
        subject_hit(q_lc, subs.drop_first())
    }
}

/// The subject contribution: the first queried subject that yields any hit
/// decides.
pub open spec fn subject_score(qs_lc: Seq<Seq<char>>, subs: Seq<Seq<char>>) -> int
    decreases qs_lc.len(),
{
    if qs_lc.len() == 0 {
        0
    } else if subject_hit(qs_lc[0], subs) > 0 {
        subject_hit(qs_lc[0], subs)
    } else {
        subject_score(qs_lc.drop_first(), subs)
    }
}

/// The subject-object bonus: 8 when subjects were queried, the record has
/// objects, and some lowercased object is contained in (or contains) some
/// lowercased query subject.
pub open spec fn cross_bonus(qs_lc: Seq<Seq<char>>, objects: Seq<Seq<char>>) -> int {
    if qs_lc.len() > 0 && objects.len() > 0 && (exists|i: int, j: int|
        0 <= i < objects.len() && 0 <= j < qs_lc.len() && sub_related(
            lower_of(#[trigger] objects[i]),
            #[trigger] qs_lc[j],
        )) {
        CROSS_BONUS as int
    } else {
        0
    }
}

/// The query subjects, lowercased in order.
pub open spec fn lowered_all(qs: Seq<Seq<char>>) -> Seq<Seq<char>> {
    qs.map_values(|s: Seq<char>| lower_of(s))
}

/// The time bonus: 10 when the query named either time bound.
pub open spec fn time_bonus(q: FlexModel) -> int {
    if q.created_after is Some || q.created_before is Some {
        TIME_BONUS as int
    } else {
        0
    }
}

/// The full fuzzy score of a record against a query, in tenths.
pub open spec fn flex_score(q: FlexModel, r: RecordModel) -> int {
    kind_score(q.kinds, r.kind) + subject_score(lowered_all(q.subjects), r.subjects)
        + cross_bonus(lowered_all(q.subjects), r.objects) + time_bonus(q)
}

/// The hard filters of the fuzzy search: owner equality and the inclusive
/// time window.
pub open spec fn flex_admits(q: FlexModel, r: RecordModel) -> bool {
    &&& match q.owner {
        Some(o) => r.owner == o,
        None => true,
    }
    &&& match q.created_after {
        Some(a) => r.created_at >= a,
        None => true,
    }
    &&& match q.created_before {
        Some(b) => r.created_at <= b,
        None => true,
    }
}

/// A record appears in the fuzzy result set exactly when it passes the hard
/// filters and its score reaches the fixed floor of 2.0.
pub open spec fn flex_qualifies(q: FlexModel, r: RecordModel) -> bool {
    flex_admits(q, r) && flex_score(q, r) >= SCORE_FLOOR as int
}

/// The fuzzy ranking: higher score first, ties broken by the more recent
/// record.
pub open spec fn flex_geq(q: FlexModel, a: RecordModel, b: RecordModel) -> bool {
    ||| flex_score(q, a) > flex_score(q, b)
    ||| (flex_score(q, a) == flex_score(q, b) && a.created_at >= b.created_at)
}

/// Case-insensitive fuzzy relation between two lowercased tokens: equality
/// or containment in either direction.
pub open spec fn fuzzy_rel(a_lc: Seq<char>, b_lc: Seq<char>) -> bool {
    a_lc == b_lc || sub_related(a_lc, b_lc)
}

/// Some queried term fuzzily matches some record term, case-insensitively.
pub open spec fn fuzzy_any(qs: Seq<Seq<char>>, fields: Seq<Seq<char>>) -> bool {
    exists|i: int, j: int|
        0 <= i < qs.len() && 0 <= j < fields.len() && fuzzy_rel(
            lower_of(#[trigger] qs[i]),
            lower_of(#[trigger] fields[j]),
        )
}

/// Some queried tag equals some record tag, case-sensitively.
pub open spec fn tags_intersect(qtags: Seq<Seq<char>>, rtags: Seq<Seq<char>>) -> bool {
    exists|i: int, j: int|
        0 <= i < qtags.len() && 0 <= j < rtags.len() && #[trigger] qtags[i] == #[trigger] rtags[j]
}

/// The strict search keeps a record exactly when it passes every supplied
/// filter; absent or empty filters impose no constraint.
pub open spec fn strict_qualifies(q: StrictModel, r: RecordModel) -> bool {
    &&& match q.owner {
        Some(o) => r.owner == o,
        None => true,
    }
    &&& (q.kinds.len() == 0 || exists|i: int| 0 <= i < q.kinds.len() && #[trigger] q.kinds[i]
        == r.kind)
    &&& (q.subjects.len() == 0 || fuzzy_any(q.subjects, r.subjects))
    &&& (q.keywords.len() == 0 || fuzzy_any(q.keywords, r.keywords))
    &&& (q.tags.len() == 0 || tags_intersect(q.tags, r.tags))
    &&& match q.importance_min {
        Some(m) => r.importance >= m,
        None => true,
    }
    &&& match q.importance_max {
        Some(m) => r.importance <= m,
        None => true,
    }
    &&& match q.created_after {
        Some(a) => r.created_at >= a,
        None => true,
    }
    &&& match q.created_before {
        Some(b) => r.created_at <= b,
        None => true,
    }
}


/// Lowercases every element, keeping the order.
pub(crate) fn lower_all(v: &Vec<String>) -> (r: Vec<String>)
    ensures
        r.deep_view() == lowered_all(v.deep_view()),
{
    let n = v.len();
    let ghost vd = v.deep_view();
    let mut r: Vec<String> = Vec::new();
    let mut i: usize = 0;
    while i < n
        invariant
            n == v@.len(),
            vd == v.deep_view(),
            0 <= i <= n,
            r.deep_view() =~= lowered_all(vd).subrange(0, i as int),
        decreases n - i,
    {
        let ghost prev = r.deep_view();
        r.push(to_lower(v[i].as_str()));
        proof {
            assert(r.deep_view() =~= prev.push(lower_of(vd[i as int])));
            assert(r.deep_view() =~= lowered_all(vd).subrange(0, i + 1 as int));
        }
        i = i + 1;
    }
    proof {
        assert(lowered_all(vd).subrange(0, n as int) =~= lowered_all(vd));
    }
    r
}

/// The kind contribution, computed by the first-hit scan.
pub(crate) fn kind_score_exec(qkinds: &Vec<String>, kind: &String) -> (s: u32)
    ensures
        s == kind_score(qkinds.deep_view(), kind@),
        s <= KIND_EXACT,
{
    let n = qkinds.len();
    let ghost qd = qkinds.deep_view();
    proof {
        assert(qd.skip(0) =~= qd);
    }
    let mut i: usize = 0;
    while i < n
        invariant
            n == qkinds@.len(),
            qd == qkinds.deep_view(),
            0 <= i <= n,
            kind_score(qd, kind@) == kind_score(qd.skip(i as int), kind@),
        decreases n - i,
    {
        proof {
            assert(qd.skip(i as int)[0] == qd[i as int]);
            assert(qd.skip(i as int).drop_first() =~= qd.skip(i as int + 1));
        }
        if qkinds[i] == *kind {
            proof {
                assert(qd[i as int] == kind@);
            }
            return KIND_EXACT;
        }
        if sub_related_exec(qkinds[i].as_str(), kind.as_str()) {
            proof {
                assert(sub_related(qd[i as int], kind@));
            }
            return KIND_PARTIAL;
        }
        i = i + 1;
    }
    proof {
        assert(qd.skip(n as int) =~= Seq::<Seq<char>>::empty());
    }
    0
}

/// One lowercased query subject against the record subjects.
pub(crate) fn subject_hit_exec(q_lc: &String, subs: &Vec<String>) -> (s: u32)
    ensures
        s == subject_hit(q_lc@, subs.deep_view()),
        s <= SUBJECT_EXACT,
{
    let n = subs.len();
    let ghost sd = subs.deep_view();
    proof {
        assert(sd.skip(0) =~= sd);
    }
    let mut i: usize = 0;
    while i < n
        invariant
            n == subs@.len(),
            sd == subs.deep_view(),
            0 <= i <= n,
            subject_hit(q_lc@, sd) == subject_hit(q_lc@, sd.skip(i as int)),
        decreases n - i,
    {
        proof {
            assert(sd.skip(i as int)[0] == sd[i as int]);
            assert(sd.skip(i as int).drop_first() =~= sd.skip(i as int + 1));
        }
        let esn = to_lower(subs[i].as_str());
        if esn == *q_lc {
            proof {
                assert(lower_of(sd[i as int]) == q_lc@);
            }
            return SUBJECT_EXACT;
        }
        if sub_related_exec(esn.as_str(), q_lc.as_str()) {
            proof {
                assert(sub_related(lower_of(sd[i as int]), q_lc@));
            }
            return SUBJECT_PARTIAL;
        }
        i = i + 1;
    }
    proof {
        assert(sd.skip(n as int) =~= Seq::<Seq<char>>::empty());
    }
    0
}

/// The subject contribution, computed by the first-hit scan.
pub(crate) fn subject_score_exec(qs_lc: &Vec<String>, subs: &Vec<String>) -> (s: u32)
    ensures
        s == subject_score(qs_lc.deep_view(), subs.deep_view()),
        s <= SUBJECT_EXACT,
{
    let n = qs_lc.len();
    let ghost qd = qs_lc.deep_view();
    let ghost sd = subs.deep_view();
    proof {
        assert(qd.skip(0) =~= qd);
    }
    let mut j: usize = 0;
    while j < n
        invariant
            n == qs_lc@.len(),
            qd == qs_lc.deep_view(),
            sd == subs.deep_view(),
            0 <= j <= n,
            subject_score(qd, sd) == subject_score(qd.skip(j as int), sd),
        decreases n - j,
    {
        proof {
            assert(qd.skip(j as int)[0] == qd[j as int]);
            assert(qd.skip(j as int).drop_first() =~= qd.skip(j as int + 1));
        }
        let h = subject_hit_exec(&qs_lc[j], subs);
        if h > 0 {
            proof {
                assert(qs_lc@[j as int]@ == qd[j as int]);
            }
            return h;
        }
        j = j + 1;
    }
    proof {
        assert(qd.skip(n as int) =~= Seq::<Seq<char>>::empty());
    }
    0
}

/// The subject-object bonus, computed by the first-hit double scan.
pub(crate) fn cross_bonus_exec(qs_lc: &Vec<String>, objects: &Vec<String>) -> (s: u32)
    ensures
        s == cross_bonus(qs_lc.deep_view(), objects.deep_view()),
        s <= CROSS_BONUS,
{
    let ghost qd = qs_lc.deep_view();
    let ghost od = objects.deep_view();
    if qs_lc.len() == 0 || objects.len() == 0 {
        return 0;
    }
    let no = objects.len();
    let nq = qs_lc.len();
    let mut i: usize = 0;
    while i < no
        invariant
            no == objects@.len(),
            nq == qs_lc@.len(),
            qd == qs_lc.deep_view(),
            od == objects.deep_view(),
            0 <= i <= no,
            forall|ii: int, jj: int|
                0 <= ii < i && 0 <= jj < nq ==> !sub_related(
                    lower_of(#[trigger] od[ii]),
                    #[trigger] qd[jj],
                ),
        decreases no - i,
    {
        let on = to_lower(objects[i].as_str());
        let mut j: usize = 0;
        while j < nq
            invariant
                no == objects@.len(),
                nq == qs_lc@.len(),
                qd == qs_lc.deep_view(),
                od == objects.deep_view(),
                0 <= i < no,
                0 <= j <= nq,
                on@ == lower_of(od[i as int]),
                forall|jj: int| 0 <= jj < j ==> !sub_related(lower_of(od[i as int]), #[trigger] qd[jj]),
            decreases nq - j,
        {
            if sub_related_exec(on.as_str(), qs_lc[j].as_str()) {
                proof {
                    assert(sub_related(lower_of(od[i as int]), qd[j as int]));
                }
                return CROSS_BONUS;
            }
            j = j + 1;
        }
        i = i + 1;
    }
    proof {
        if exists|ii: int, jj: int|
            0 <= ii < od.len() && 0 <= jj < qd.len() && sub_related(
                lower_of(#[trigger] od[ii]),
                #[trigger] qd[jj],
            ) {
            let (ii, jj) = choose|ii: int, jj: int|
                0 <= ii < od.len() && 0 <= jj < qd.len() && sub_related(
                    lower_of(#[trigger] od[ii]),
                    #[trigger] qd[jj],
                );
            assert(false);
        }
    }
    0
}

/// Fuzzy matching between two term lists, computed by the double scan.
pub(crate) fn fuzzy_any_exec(qs: &Vec<String>, fields: &Vec<String>) -> (r: bool)
    ensures
        r == fuzzy_any(qs.deep_view(), fields.deep_view()),
{
    let ghost qd = qs.deep_view();
    let ghost fd = fields.deep_view();
    let nq = qs.len();
    let nf = fields.len();
    let mut i: usize = 0;
    while i < nq
        invariant
            nq == qs@.len(),
            nf == fields@.len(),
            qd == qs.deep_view(),
            fd == fields.deep_view(),
            0 <= i <= nq,
            forall|ii: int, jj: int|
                0 <= ii < i && 0 <= jj < nf ==> !fuzzy_rel(
                    lower_of(#[trigger] qd[ii]),
                    lower_of(#[trigger] fd[jj]),
                ),
        decreases nq - i,
    {
        let s_lc = to_lower(qs[i].as_str());
        let mut j: usize = 0;
        while j < nf
            invariant
                nq == qs@.len(),
                nf == fields@.len(),
                qd == qs.deep_view(),
                fd == fields.deep_view(),
                0 <= i < nq,
                0 <= j <= nf,
                s_lc@ == lower_of(qd[i as int]),
                forall|jj: int|
                    0 <= jj < j ==> !fuzzy_rel(lower_of(qd[i as int]), lower_of(#[trigger] fd[jj])),
            decreases nf - j,
        {
            let es_lc = to_lower(fields[j].as_str());
            if es_lc == s_lc || sub_related_exec(s_lc.as_str(), es_lc.as_str()) {
                proof {
                    assert(fuzzy_rel(lower_of(qd[i as int]), lower_of(fd[j as int])));
                }
                return true;
            }
            j = j + 1;
        }
        i = i + 1;
    }
    proof {
        if fuzzy_any(qd, fd) {
            let (ii, jj) = choose|ii: int, jj: int|
                0 <= ii < qd.len() && 0 <= jj < fd.len() && fuzzy_rel(
                    lower_of(#[trigger] qd[ii]),
                    lower_of(#[trigger] fd[jj]),
                );
            assert(false);
        }
    }
    false
}

/// Exact, case-sensitive intersection between two term lists.
pub(crate) fn tags_intersect_exec(qtags: &Vec<String>, rtags: &Vec<String>) -> (r: bool)
    ensures
        r == tags_intersect(qtags.deep_view(), rtags.deep_view()),
{
    let ghost qd = qtags.deep_view();
    let ghost rd = rtags.deep_view();
    let nq = qtags.len();
    let nr = rtags.len();
    let mut i: usize = 0;
    while i < nq
        invariant
            nq == qtags@.len(),
            nr == rtags@.len(),
            qd == qtags.deep_view(),
            rd == rtags.deep_view(),
            0 <= i <= nq,
            forall|ii: int, jj: int| 0 <= ii < i && 0 <= jj < nr ==> #[trigger] qd[ii] != #[trigger] rd[jj],
        decreases nq - i,
    {
        let mut j: usize = 0;
        while j < nr
            invariant
                nq == qtags@.len(),
                nr == rtags@.len(),
                qd == qtags.deep_view(),
                rd == rtags.deep_view(),
                0 <= i < nq,
                0 <= j <= nr,
                forall|jj: int| 0 <= jj < j ==> qd[i as int] != #[trigger] rd[jj],
            decreases nr - j,
        {
            if qtags[i] == rtags[j] {
                proof {
                    assert(qd[i as int] == rd[j as int]);
                }
                return true;
            }
            j = j + 1;
        }
        i = i + 1;
    }
    proof {
        if tags_intersect(qd, rd) {
            let (ii, jj) = choose|ii: int, jj: int|
                0 <= ii < qd.len() && 0 <= jj < rd.len() && #[trigger] qd[ii] == #[trigger] rd[jj];
            assert(false);
        }
    }
    false
}

/// Exact membership of the record kind in the queried kind list.
pub(crate) fn kind_in_exec(kinds: &Vec<String>, kind: &String) -> (r: bool)
    ensures
        r == (exists|i: int| 0 <= i < kinds.deep_view().len() && #[trigger] kinds.deep_view()[i] == kind@),
{
    let ghost kd = kinds.deep_view();
    let n = kinds.len();
    let mut i: usize = 0;
    while i < n
        invariant
            n == kinds@.len(),
            kd == kinds.deep_view(),
            0 <= i <= n,
            forall|ii: int| 0 <= ii < i ==> #[trigger] kd[ii] != kind@,
        decreases n - i,
    {
        if kinds[i] == *kind {
            proof {
                assert(kd[i as int] == kind@);
            }
            return true;
        }
        i = i + 1;
    }
    false
}

/// The full fuzzy score of one record, given the pre-lowercased query
/// subjects.
pub(crate) fn flex_score_exec(q: &FlexibleQuery, qs_lc: &Vec<String>, e: &Record) -> (s: u32)
    requires
        qs_lc.deep_view() == lowered_all(q@.subjects),
    ensures
        s == flex_score(q@, e@),
        s <= 38,
{
    let mut s: u32 = 0;
    match &q.kinds {
        Some(ks) => {
            let k = kind_score_exec(ks, &e.kind);
            s = s + k;
        },
        None => {
            proof {
                assert(q@.kinds =~= Seq::<Seq<char>>::empty());
            }
        },
    }
    let sub = subject_score_exec(qs_lc, &e.subjects);
    s = s + sub;
    let cb = cross_bonus_exec(qs_lc, &e.objects);
    s = s + cb;
    if q.created_after.is_some() || q.created_before.is_some() {
        s = s + TIME_BONUS;
    }
    s
}

/// The hard filters of the fuzzy search on one record.
pub(crate) fn flex_admits_exec(q: &FlexibleQuery, e: &Record) -> (r: bool)
    ensures
        r == flex_admits(q@, e@),
{
    match &q.owner {
        Some(o) => {
            if !(e.owner == *o) {
                return false;
            }
        },
        None => {},
    }
    match q.created_after {
        Some(a) => {
            if e.created_at < a {
                return false;
            }
        },
        None => {},
    }
    match q.created_before {
        Some(b) => {
            if e.created_at > b {
                return false;
            }
        },
        None => {},
    }
    true
}

/// The whole strict filter on one record.
pub(crate) fn strict_qualifies_exec(q: &StrictQuery, e: &Record) -> (r: bool)
    ensures
        r == strict_qualifies(q@, e@),
{
    match &q.owner {
        Some(o) => {
            if !(e.owner == *o) {
                return false;
            }
        },
        None => {},
    }
    match &q.kinds {
        Some(ks) => {
            if ks.len() > 0 && !kind_in_exec(ks, &e.kind) {
                return false;
            }
        },
        None => {},
    }
    match &q.subjects {
        Some(ss) => {
            if ss.len() > 0 && !fuzzy_any_exec(ss, &e.subjects) {
                return false;
            }
        },
        None => {},
    }
    match &q.keywords {
        Some(ks) => {
            if ks.len() > 0 && !fuzzy_any_exec(ks, &e.keywords) {
                return false;
            }
        },
        None => {},
    }
    match &q.tags {
        Some(ts) => {
            if ts.len() > 0 && !tags_intersect_exec(ts, &e.tags) {
                return false;
            }
        },
        None => {},
    }
    match q.importance_min {
        Some(m) => {
            if e.importance < m {
                return false;
            }
        },
        None => {},
    }
    match q.importance_max {
        Some(m) => {
            if e.importance > m {
                return false;
            }
        },
        None => {},
    }
    match q.created_after {
        Some(a) => {
            if e.created_at < a {
                return false;
            }
        },
        None => {},
    }
    match q.created_before {
        Some(b) => {
            if e.created_at > b {
                return false;
            }
        },
        None => {},
    }
    true
}

} // verus!
