//! The recommendation core: resolve the part's configuration and model,
//! score every candidate against the model, rank, explore, truncate,
//! persist the served ranking as an activity, and build the response.

use vstd::prelude::*;

use crate::features::FeatureList;
use crate::features::bounded_values;
use crate::predict::score_features;
use crate::predict::score_spec;
use crate::rank::CHANCE_SCALE;
use crate::rank::Scored;
use crate::rank::resort_examples;
use crate::rank::sort_scored;
use crate::rank::sort_spec;
use crate::rank::swapped;
use crate::rank::lemma_sort_spec_props;
use crate::store::Activity;
use crate::store::ActivityV;
use crate::store::Example;
use crate::store::Store;

verus! {

/// Configuration for one part: the probability, in parts per million, that
/// a served ranking trades one visible slot for a hidden candidate.
#[derive(Clone, Copy)]
pub struct PartConfig {
    pub upgrade_chance: u32,
}

impl PartConfig {
    pub open spec fn wf(&self) -> bool {
        self.upgrade_chance <= CHANCE_SCALE
    }
}

/// Why a request failed.  A failure at any step aborts the whole request.
#[derive(Clone, Copy, Debug, PartialEq, Eq, Structural)]
pub enum RecommendError {
    /// The current item could not be resolved.
    ItemNotFound,
    /// Neither a part-specific nor a default model exists.
    ModelUnavailable,
    /// The candidate sequence could not be produced.
    CandidateEnumerationFailed,
    /// The activity record could not be written.
    PersistenceFailed,
    /// The storage backend failed outright.
    StorageError,
}

/// One inbound request, with the collaborator lookups already resolved to
/// plain values: the part name, the number of items asked for, the current
/// item (`None` when its resolution failed), and the candidate examples
/// computed relative to it (`None` when their enumeration failed).
pub struct Request {
    pub part: String,
    pub count: usize,
    pub current: Option<Example>,
    pub candidates: Option<Vec<Example>>,
}

impl Request {
    pub open spec fn wf(&self) -> bool {
        &&& match self.current {
            Some(e) => e.wf(),
            None => true,
        }
        &&& match self.candidates {
            Some(cs) => forall|i: int| 0 <= i < cs@.len() ==> (#[trigger] cs@[i]).wf(),
            None => true,
        }
    }
}

/// The externally visible result: the persisted activity's id plus the
/// served `(item id, score)` pairs, in served order.
pub struct Response {
    pub items: Vec<(u128, i128)>,
    pub id: u128,
}

/// The recommendation core: a storage collaborator plus the process-wide
/// read-only configuration.
pub struct Core<T: Store> {
    pub storage: T,
    pub part_config: Vec<(String, PartConfig)>,
    pub default_config: PartConfig,
}

/// The configuration the first entry under `name` carries, if any.
pub open spec fn lookup_config(s: Seq<(String, PartConfig)>, name: Seq<char>) -> Option<PartConfig>
    decreases s.len(),
{
    if s.len() == 0 {
        None
    } else if s[0].0@ == name {
        Some(s[0].1)
    } else {
        lookup_config(s.drop_first(), name)
    }
}

/// `lookup_config` finds the entry at `i` when no earlier entry matches.
proof fn lemma_lookup_config_at(s: Seq<(String, PartConfig)>, name: Seq<char>, i: int)
    requires
        0 <= i < s.len(),
        s[i].0@ == name,
        forall|j: int| 0 <= j < i ==> (#[trigger] s[j]).0@ != name,
    ensures
        lookup_config(s, name) == Some(s[i].1),
    decreases i,
{
    if i > 0 {
        assert(forall|j: int| 0 <= j < i - 1 ==> (#[trigger] s.drop_first()[j]).0@ != name);
        lemma_lookup_config_at(s.drop_first(), name, i - 1);
    }
}

/// `lookup_config` finds nothing when no entry matches.
proof fn lemma_lookup_config_none(s: Seq<(String, PartConfig)>, name: Seq<char>)
    requires
        forall|j: int| 0 <= j < s.len() ==> (#[trigger] s[j]).0@ != name,
    ensures
        lookup_config(s, name) is None,
    decreases s.len(),
{
    if s.len() > 0 {
        assert(forall|j: int| 0 <= j < s.len() - 1 ==> (#[trigger] s.drop_first()[j]).0@ != name);
        lemma_lookup_config_none(s.drop_first(), name);
    }
}

/// Whatever `lookup_config` returns came from some entry of the list.
proof fn lemma_lookup_config_entry(s: Seq<(String, PartConfig)>, name: Seq<char>)
    ensures
        lookup_config(s, name) matches Some(c) ==> exists|i: int|
            0 <= i < s.len() && (#[trigger] s[i]).1 == c,
    decreases s.len(),
{
    if s.len() > 0 && s[0].0@ != name {
        lemma_lookup_config_entry(s.drop_first(), name);
        if lookup_config(s, name) is Some {
            let c = lookup_config(s, name)->Some_0;
            let i = choose|i: int|
                0 <= i < s.drop_first().len() && (#[trigger] s.drop_first()[i]).1 == c;
            assert(s[i + 1].1 == c);
        }
    }
}

/// Every element of `s` remembers an original position below `n`.
pub open spec fn pos_bounded(s: Seq<Scored>, n: int) -> bool {
    forall|k: int| 0 <= k < s.len() ==> (#[trigger] s[k]).pos < n
}

/// `r` failed with exactly the error `e`.
pub open spec fn is_err(r: Result<Response, RecommendError>, e: RecommendError) -> bool {
    r matches Err(x) && x == e
}

/// The model a store resolves for a part: the part-specific model when one
/// exists, otherwise the default model, otherwise nothing.
pub open spec fn resolved_model(
    models: Map<Seq<char>, Seq<(u64, i64)>>,
    default: Option<Seq<(u64, i64)>>,
    part: Seq<char>,
) -> Option<Seq<(u64, i64)>> {
    if models.contains_key(part) {
        Some(models[part])
    } else {
        default
    }
}

/// Fallback invariant: for a part without its own model, resolution yields
/// the default model, exactly as if that part had been configured with the
/// default model's weights outright.
pub proof fn lemma_model_fallback(
    models: Map<Seq<char>, Seq<(u64, i64)>>,
    default: Option<Seq<(u64, i64)>>,
    other_default: Option<Seq<(u64, i64)>>,
    part: Seq<char>,
    m: Seq<(u64, i64)>,
)
    requires
        !models.contains_key(part),
        default == Some(m),
    ensures
        resolved_model(models, default, part) == Some(m),
        resolved_model(models.insert(part, m), other_default, part) == Some(m),
{
}

/// The scoring outcome of every candidate, in candidate order: candidate
/// `i` keeps its id, carries its score against the model, and remembers
/// position `i`.
pub open spec fn scored_seq(cands: Seq<Example>, model: Seq<(u64, i64)>) -> Seq<Scored> {
    Seq::new(
        cands.len(),
        |i: int|
            Scored {
                item_id: cands[i].item_id,
                score: score_spec(cands[i].features@, model) as i128,
                pos: i as usize,
            },
    )
}

/// How a served window may relate to the full ranking: exactly the first
/// `count` ranked candidates, except that when some candidates stay hidden
/// and exploration is enabled, one visible position and one hidden position
/// may have been exchanged first.  With exploration off it is exactly the
/// ranked prefix.
pub open spec fn is_served(served: Seq<Scored>, ranked: Seq<Scored>, count: int, chance: u32) -> bool {
    let cut = if count <= ranked.len() {
        count
    } else {
        ranked.len() as int
    };
    &&& (chance == 0 ==> served == ranked.take(cut))
    &&& (served == ranked.take(cut) || (chance > 0 && 0 < count < ranked.len() && exists|i: int, j: int|
        0 <= i < count <= j < ranked.len() && served == swapped(ranked, i, j).take(cut)))
}

/// What a successful response means: some served window of the ranking of
/// the scored candidates yields the response's items in order, and the
/// recorded activity holds the same items, as examples, in the same order,
/// under the response's id.
pub open spec fn valid_response(
    resp: Response,
    act: ActivityV,
    cur: Example,
    cands: Seq<Example>,
    model: Seq<(u64, i64)>,
    part: Seq<char>,
    count: int,
    chance: u32,
) -> bool {
    let ranked = sort_spec(scored_seq(cands, model));
    exists|served: Seq<Scored>|
        {
            &&& #[trigger] is_served(served, ranked, count, chance)
            &&& resp.items@ == served.map_values(|s: Scored| (s.item_id, s.score))
            &&& act == ActivityV {
                id: resp.id,
                part,
                current: cur@,
                visible: Seq::new(served.len(), |i: int| cands[served[i].pos as int]@),
                chosen: None,
            }
        }
}

/// What a successful call of `recommend` promises, relating the core
/// before (`pre`) and after (`post`) the call: the request's lookups had
/// succeeded, a model resolved, the response serves exactly as many items
/// as requested or as exist, and one new activity — matching the response
/// as `valid_response` says — was appended to the log, and nothing else.
pub open spec fn recommend_ok<T: Store>(
    pre: Core<T>,
    post: Core<T>,
    request: Request,
    resp: Response,
) -> bool {
    &&& request.current is Some
    &&& request.candidates is Some
    &&& resolved_model(pre.storage.models(), pre.storage.default_model(), request.part@) is Some
    &&& {
        let cur = request.current->Some_0;
        let cands = request.candidates->Some_0;
        let model = resolved_model(
            pre.storage.models(),
            pre.storage.default_model(),
            request.part@,
        )->Some_0;
        &&& resp.items@.len() == (if request.count <= cands@.len() {
            request.count as int
        } else {
            cands@.len() as int
        })
        &&& exists|av: ActivityV|
            post.storage.saved() == pre.storage.saved().push(av) && #[trigger] valid_response(
                resp,
                av,
                cur,
                cands@,
                model,
                request.part@,
                request.count as int,
                pre.spec_config_for(request.part@).upgrade_chance,
            )
    }
}

/// Every response item also stands in the recorded activity's visible
/// list, at the same place: the two carry the same item ids in the same
/// order.
pub proof fn lemma_response_matches_activity(
    resp: Response,
    av: ActivityV,
    cur: Example,
    cands: Seq<Example>,
    model: Seq<(u64, i64)>,
    part: Seq<char>,
    count: int,
    chance: u32,
)
    requires
        0 <= count,
        cands.len() <= usize::MAX,
        valid_response(resp, av, cur, cands, model, part, count, chance),
    ensures
        av.visible.len() == resp.items@.len(),
        forall|i: int|
            0 <= i < resp.items@.len() ==> (#[trigger] av.visible[i]).item_id == resp.items@[i].0,
{
    let scored = scored_seq(cands, model);
    let ranked = sort_spec(scored);
    lemma_sort_spec_props(scored);
    let served = choose|served: Seq<Scored>|
        {
            &&& #[trigger] is_served(served, ranked, count, chance)
            &&& resp.items@ == served.map_values(|s: Scored| (s.item_id, s.score))
            &&& av == ActivityV {
                id: resp.id,
                part,
                current: cur@,
                visible: Seq::new(served.len(), |i: int| cands[served[i].pos as int]@),
                chosen: None,
            }
        };
    assert forall|i: int| 0 <= i < served.len() implies (#[trigger] av.visible[i]).item_id
        == resp.items@[i].0 by {
        let cut = if count <= ranked.len() {
            count
        } else {
            ranked.len() as int
        };
        assert(scored.contains(served[i])) by {
            if served == ranked.take(cut) {
                assert(served.len() == cut);
                assert(served[i] == ranked.take(cut)[i]);
                assert(served[i] == ranked[i]);
                assert(ranked.contains(ranked[i]));
            } else {
                let (a, b) = choose|a: int, b: int|
                    0 <= a < count <= b < ranked.len() && served == swapped(ranked, a, b).take(cut);
                assert(served[i] == ranked[a] || served[i] == ranked[b] || served[i] == ranked[i]);
                assert(ranked.contains(served[i]));
            }
        }
        let j = choose|j: int| 0 <= j < scored.len() && #[trigger] scored[j] == served[i];
        assert(scored[j].item_id == cands[j].item_id && scored[j].pos == j as usize);
        assert(served[i].pos == j && served[i].item_id == cands[j].item_id);
    }
}

/// Ranking determinism without exploration: with the exploration chance at
/// zero, a valid response's items are exactly the head of the stable
/// descending ranking of the scored candidates — a deterministic function
/// of the candidates and the model, ordered by descending score with ties
/// in original candidate order.
pub proof fn lemma_deterministic_without_exploration(
    resp: Response,
    av: ActivityV,
    cur: Example,
    cands: Seq<Example>,
    model: Seq<(u64, i64)>,
    part: Seq<char>,
    count: int,
)
    requires
        valid_response(resp, av, cur, cands, model, part, count, 0),
    ensures
        resp.items@ == sort_spec(scored_seq(cands, model)).take(
            if count <= cands.len() {
                count
            } else {
                cands.len() as int
            },
        ).map_values(|s: Scored| (s.item_id, s.score)),
        crate::rank::sorted_desc(sort_spec(scored_seq(cands, model))),
{
    let ranked = sort_spec(scored_seq(cands, model));
    lemma_sort_spec_props(scored_seq(cands, model));
    let served = choose|served: Seq<Scored>|
        {
            &&& #[trigger] is_served(served, ranked, count, 0)
            &&& resp.items@ == served.map_values(|s: Scored| (s.item_id, s.score))
            &&& av == ActivityV {
                id: resp.id,
                part,
                current: cur@,
                visible: Seq::new(served.len(), |i: int| cands[served[i].pos as int]@),
                chosen: None,
            }
        };
}

/// Resolve the model for a part: the part-specific model when the store has
/// one, else the default model, else `ModelUnavailable`; backend failures
/// pass through as `StorageError`.
pub fn pluck_model<T: Store>(storage: &T, part: &String) -> (r: Result<
    FeatureList,
    RecommendError,
>)
    requires
        storage.wf(),
    ensures
        r matches Ok(m) ==> resolved_model(storage.models(), storage.default_model(), part@)
            == Some(m@) && m.wf(),
        r matches Err(e) ==> (e == RecommendError::ModelUnavailable
            || e == RecommendError::StorageError) && (e == RecommendError::ModelUnavailable
            ==> resolved_model(storage.models(), storage.default_model(), part@) is None),
{
    match storage.find_model(part) {
        Ok(Some(m)) => Ok(m),
        Ok(None) => match storage.find_default_model() {
            Ok(Some(m)) => Ok(m),
            Ok(None) => Err(RecommendError::ModelUnavailable),
            Err(_) => Err(RecommendError::StorageError),
        },
        Err(_) => Err(RecommendError::StorageError),
    }
}

/// Score every candidate against the model, single pass, keeping each
/// candidate's original position.
pub fn score_examples(cands: &Vec<Example>, model: &FeatureList) -> (r: Vec<Scored>)
    requires
        forall|i: int| 0 <= i < cands@.len() ==> (#[trigger] cands@[i]).wf(),
        bounded_values(model@),
    ensures
        r@ == scored_seq(cands@, model@),
{
    let n = cands.len();
    let mut r: Vec<Scored> = Vec::new();
    let mut i: usize = 0;
    while i < n
        invariant
            n == cands@.len(),
            i <= n,
            forall|k: int| 0 <= k < cands@.len() ==> (#[trigger] cands@[k]).wf(),
            bounded_values(model@),
            r@.len() == i,
            forall|k: int| 0 <= k < i ==> #[trigger] r@[k] == scored_seq(cands@, model@)[k],
        decreases n - i,
    {
        let s = score_features(&cands[i].features, model);
        r.push(Scored { item_id: cands[i].item_id, score: s, pos: i });
        i += 1;
    }
    proof {
        assert(r@ =~= scored_seq(cands@, model@));
    }
    r
}

/// Relies on uuid::Uuid::new_v4 and uuid::Uuid::as_u128: a freshly drawn
/// random version-4 identifier, carried as its 128-bit value.  The draw is
/// random, so nothing is promised of it.
#[verifier::external_body]
fn fresh_id() -> u128 {
    uuid::Uuid::new_v4().as_u128()
}

/// Persist the served ranking: draw a fresh activity id, record the part,
/// the current example, the visible examples in served order and no choice
/// yet, and hand the id back.  A failed write fails the request and leaves
/// the log unchanged.
fn build_activity<T: Store>(
    storage: &mut T,
    part: &String,
    current: Example,
    visible: Vec<Example>,
) -> (r: Result<u128, RecommendError>)
    requires
        old(storage).wf(),
    ensures
        final(storage).wf(),
        final(storage).models() == old(storage).models(),
        final(storage).default_model() == old(storage).default_model(),
        r matches Ok(id) ==> final(storage).saved() == old(storage).saved().push(
            ActivityV {
                id,
                part: part@,
                current: current@,
                visible: visible@.map_values(|e: Example| e@),
                chosen: None,
            },
        ),
        r matches Err(e) ==> e == RecommendError::PersistenceFailed && final(storage).saved()
            == old(storage).saved(),
{
    let activity_id = fresh_id();
    let activity = Activity {
        id: activity_id,
        part: part.clone(),
        current,
        visible,
        chosen: None,
    };
    let saved = storage.model_activity_save(part, &activity);
    match saved {
        Ok(_) => Ok(activity_id),
        Err(_) => Err(RecommendError::PersistenceFailed),
    }
}

impl<T: Store> Core<T> {
    /// The core is well formed when its store and every configuration are.
    pub open spec fn wf(&self) -> bool {
        &&& self.storage.wf()
        &&& self.default_config.wf()
        &&& forall|i: int|
            0 <= i < self.part_config@.len() ==> (#[trigger] self.part_config@[i]).1.wf()
    }

    /// Assemble a core from its storage collaborator and the configuration
    /// read at startup.
    pub fn of(storage: T, part_config: Vec<(String, PartConfig)>, default_config: PartConfig) -> (c:
        Core<T>)
        ensures
            c.storage == storage,
            c.part_config == part_config,
            c.default_config == default_config,
    {
        Core { storage, part_config, default_config }
    }

    /// The configuration a part resolves to: its own entry, or the default.
    pub open spec fn spec_config_for(&self, name: Seq<char>) -> PartConfig {
        match lookup_config(self.part_config@, name) {
            Some(c) => c,
            None => self.default_config,
        }
    }

    /// A well-formed core resolves a well-formed configuration for every
    /// part: a missing entry is normal and answered with the default.
    pub proof fn lemma_config_for_wf(&self, name: Seq<char>)
        requires
            self.wf(),
        ensures
            self.spec_config_for(name).wf(),
    {
        lemma_lookup_config_entry(self.part_config@, name);
    }

    /// Look up the part's configuration, falling back to the default on a
    /// miss.  No error path: a miss is normal.
    pub fn config_for(&self, name: &String) -> (r: &PartConfig)
        ensures
            *r == self.spec_config_for(name@),
    {
        let n = self.part_config.len();
        let mut i: usize = 0;
        while i < n
            invariant
                n == self.part_config@.len(),
                i <= n,
                forall|j: int| 0 <= j < i ==> (#[trigger] self.part_config@[j]).0@ != name@,
            decreases n - i,
        {
            let entry = &self.part_config[i];
            if entry.0 == *name {
                proof {
                    lemma_lookup_config_at(self.part_config@, name@, i as int);
                }
                return &self.part_config[i].1;
            }
            i += 1;
        }
        proof {
            lemma_lookup_config_none(self.part_config@, name@);
        }
        &self.default_config
    }

    /// Serve one request: resolve the current item, the part's
    /// configuration and its model; score every candidate once; rank by
    /// descending score with ties in candidate order; possibly trade one
    /// visible slot for a hidden candidate; truncate to the requested
    /// count; persist the served ranking as an activity; and answer with
    /// the activity id and the served `(item id, score)` pairs.  A failure
    /// at any step aborts the whole request with its error, and then the
    /// activity log is untouched.
    #[verifier::rlimit(60)]
    pub fn recommend(&mut self, request: &Request) -> (r: Result<Response, RecommendError>)
        requires
            old(self).wf(),
            request.wf(),
        ensures
            final(self).wf(),
            final(self).part_config == old(self).part_config,
            final(self).default_config == old(self).default_config,
            final(self).storage.models() == old(self).storage.models(),
            final(self).storage.default_model() == old(self).storage.default_model(),
            !(r matches Ok(_)) ==> final(self).storage.saved() == old(self).storage.saved(),
            is_err(r, RecommendError::ItemNotFound) <==> request.current is None,
            is_err(r, RecommendError::ModelUnavailable) ==> request.current is Some
                && resolved_model(
                old(self).storage.models(),
                old(self).storage.default_model(),
                request.part@,
            ) is None,
            is_err(r, RecommendError::CandidateEnumerationFailed) ==> request.current is Some
                && request.candidates is None && resolved_model(
                old(self).storage.models(),
                old(self).storage.default_model(),
                request.part@,
            ) is Some,
            is_err(r, RecommendError::PersistenceFailed) ==> request.current is Some
                && request.candidates is Some,
            request.current is Some && request.candidates is None ==> !(r matches Ok(_))
                && !is_err(r, RecommendError::PersistenceFailed),
            r matches Ok(resp) ==> recommend_ok(*old(self), *final(self), *request, resp),
    {
        let cur = match &request.current {
            Some(e) => e,
            None => {
                return Err(RecommendError::ItemNotFound);
            },
        };
        let current_item = cur.duplicate();
        let chance = self.config_for(&request.part).upgrade_chance;
        proof {
            self.lemma_config_for_wf(request.part@);
        }
        let model = match pluck_model(&self.storage, &request.part) {
            Ok(m) => m,
            Err(e) => {
                return Err(e);
            },
        };
        let cands = match &request.candidates {
            Some(cs) => cs,
            None => {
                return Err(RecommendError::CandidateEnumerationFailed);
            },
        };
        let n = cands.len();
        let scored = score_examples(cands, &model);
        let ghost ranked0 = sort_spec(scored_seq(cands@, model@));
        let mut ranked = sort_scored(&scored);
        proof {
            lemma_sort_spec_props(scored@);
            assert(pos_bounded(scored@, n as int)) by {
                assert forall|k: int| 0 <= k < scored@.len() implies (#[trigger] scored@[k]).pos
                    < n as int by {
                    assert(scored@[k] == scored_seq(cands@, model@)[k]);
                }
            }
            assert(pos_bounded(ranked0, n as int)) by {
                assert forall|k: int| 0 <= k < ranked0.len() implies (#[trigger] ranked0[k]).pos
                    < n as int by {
                    assert(ranked0.contains(ranked0[k]));
                    assert(scored@.contains(ranked0[k]));
                    let j = choose|j: int| 0 <= j < scored@.len() && #[trigger] scored@[j]
                        == ranked0[k];
                }
            }
        }
        resort_examples(&mut ranked, request.count, chance);
        proof {
            assert(pos_bounded(ranked@, n as int)) by {
                if ranked@ != ranked0 {
                    let (i, j) = choose|i: int, j: int|
                        0 <= i < request.count as int <= j < ranked0.len() && ranked@ == swapped(
                            ranked0,
                            i,
                            j,
                        );
                    assert forall|k: int| 0 <= k < ranked@.len() implies (#[trigger] ranked@[k]).pos
                        < n as int by {
                        assert(ranked@[k] == ranked0[i] || ranked@[k] == ranked0[j] || ranked@[k]
                            == ranked0[k]);
                    }
                }
            }
        }
        let ghost swapped_ranking = ranked@;
        ranked.truncate(request.count);
        let ghost served = ranked@;
        proof {
            assert(pos_bounded(served, n as int));
            assert(is_served(served, ranked0, request.count as int, chance)) by {
                let cut = if request.count as int <= ranked0.len() {
                    request.count as int
                } else {
                    ranked0.len() as int
                };
                if swapped_ranking == ranked0 {
                    if request.count as int <= ranked0.len() {
                        assert(served == ranked0.take(cut));
                    } else {
                        assert(served == swapped_ranking);
                        assert(ranked0.take(cut) =~= ranked0);
                    }
                } else {
                    assert(0 < request.count < ranked0.len() && chance > 0);
                    assert(served == swapped_ranking.take(cut));
                }
            }
        }
        let m = ranked.len();
        let mut items: Vec<(u128, i128)> = Vec::new();
        let mut visible: Vec<Example> = Vec::new();
        let mut k: usize = 0;
        while k < m
            invariant
                m == ranked@.len(),
                k <= m,
                n == cands@.len(),
                pos_bounded(ranked@, n as int),
                items@.len() == k,
                visible@.len() == k,
                forall|l: int|
                    0 <= l < k ==> #[trigger] items@[l] == (ranked@[l].item_id, ranked@[l].score),
                forall|l: int|
                    0 <= l < k ==> (#[trigger] visible@[l])@ == cands@[ranked@[l].pos as int]@,
            decreases m - k,
        {
            let s = ranked[k];
            items.push((s.item_id, s.score));
            visible.push(cands[s.pos].duplicate());
            k += 1;
        }
        let ghost visible_views = visible@.map_values(|e: Example| e@);
        let id = match build_activity(&mut self.storage, &request.part, current_item, visible) {
            Ok(id) => id,
            Err(e) => {
                return Err(e);
            },
        };
        let resp = Response { items, id };
        proof {
            let av = ActivityV {
                id,
                part: request.part@,
                current: current_item@,
                visible: visible_views,
                chosen: None,
            };
            assert(resp.items@ =~= served.map_values(|s: Scored| (s.item_id, s.score)));
            assert(visible_views =~= Seq::new(
                served.len(),
                |i: int| cands@[served[i].pos as int]@,
            ));
            assert(av == ActivityV {
                id: resp.id,
                part: request.part@,
                current: cur@,
                visible: Seq::new(served.len(), |i: int| cands@[served[i].pos as int]@),
                chosen: None,
            });
            assert(self.storage.saved() == old(self).storage.saved().push(av));
            let cur_v = request.current->Some_0;
            let cands_v = request.candidates->Some_0;
            let model_v = resolved_model(
                old(self).storage.models(),
                old(self).storage.default_model(),
                request.part@,
            )->Some_0;
            assert(cur_v == *cur);
            assert(cands_v@ == cands@);
            assert(model_v == model@);
            assert(valid_response(
                resp,
                av,
                cur_v,
                cands_v@,
                model_v,
                request.part@,
                request.count as int,
                old(self).spec_config_for(request.part@).upgrade_chance,
            ));
            assert(recommend_ok(*old(self), *self, *request, resp));
        }
        Ok(resp)
    }
}

} // verus!
