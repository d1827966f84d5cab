//! The storage capability: model lookup, default-model lookup and activity
//! persistence, as a trait the recommendation core depends on, together
//! with an in-memory implementation.

use vstd::prelude::*;

use crate::features::FeatureList;

verus! {

/// An item, by id, together with its feature list computed relative to a
/// context.
#[derive(Clone)]
pub struct Example {
    pub item_id: u128,
    pub features: FeatureList,
}

/// The mathematical content of an `Example`.
#[verifier::ext_equal]
pub ghost struct ExampleV {
    pub item_id: u128,
    pub features: Seq<(u64, i64)>,
}

impl View for Example {
    type V = ExampleV;

    open spec fn view(&self) -> ExampleV {
        ExampleV { item_id: self.item_id, features: self.features@ }
    }
}

impl Example {
    pub open spec fn wf(&self) -> bool {
        self.features.wf()
    }

    /// An exact copy of this example.
    pub fn duplicate(&self) -> (r: Example)
        ensures
            r@ == self@,
    {
        Example { item_id: self.item_id, features: self.features.duplicate() }
    }
}

/// The record of one served ranking: who was current, what was shown and in
/// what order, and (later, outside this crate's scope) what was chosen.
pub struct Activity {
    pub id: u128,
    pub part: String,
    pub current: Example,
    pub visible: Vec<Example>,
    pub chosen: Option<u128>,
}

/// The mathematical content of an `Activity`.
#[verifier::ext_equal]
pub ghost struct ActivityV {
    pub id: u128,
    pub part: Seq<char>,
    pub current: ExampleV,
    pub visible: Seq<ExampleV>,
    pub chosen: Option<u128>,
}

impl View for Activity {
    type V = ActivityV;

    open spec fn view(&self) -> ActivityV {
        ActivityV {
            id: self.id,
            part: self.part@,
            current: self.current@,
            visible: self.visible@.map_values(|e: Example| e@),
            chosen: self.chosen,
        }
    }
}

impl Activity {
    /// An exact copy of this activity.
    pub fn duplicate(&self) -> (r: Activity)
        ensures
            r@ == self@,
    {
        let n = self.visible.len();
        let mut visible: Vec<Example> = Vec::new();
        let mut i: usize = 0;
        while i < n
            invariant
                n == self.visible@.len(),
                i <= n,
                visible@.len() == i,
                forall|j: int| 0 <= j < i ==> (#[trigger] visible@[j])@ == self.visible@[j]@,
            decreases n - i,
        {
            visible.push(self.visible[i].duplicate());
            i += 1;
        }
        let r = Activity {
            id: self.id,
            part: self.part.clone(),
            current: self.current.duplicate(),
            visible,
            chosen: self.chosen,
        };
        proof {
            assert(r.visible@.map_values(|e: Example| e@) =~= self.visible@.map_values(
                |e: Example| e@,
            ));
            assert(r@ =~= self@);
        }
        r
    }
}

/// A failure inside the storage backend, passed through to the caller.
#[derive(Clone, Copy, Debug, PartialEq, Eq, Structural)]
pub enum StoreError {
    Backend,
}

/// The storage capability the recommendation core consumes.  A store holds
/// per-part models, at most one default model, and an append-only log of
/// served activities.  Any call may fail with a backend error; what a call
/// returns on success is pinned to the store's ghost state.
pub trait Store: Sized {
    /// The per-part models the store holds, by part name.
    spec fn models(&self) -> Map<Seq<char>, Seq<(u64, i64)>>;

    /// The default model, if one is configured.
    spec fn default_model(&self) -> Option<Seq<(u64, i64)>>;

    /// The activities recorded so far, in order of recording.
    spec fn saved(&self) -> Seq<ActivityV>;

    /// Every model the store can hand out is well formed.
    spec fn wf(&self) -> bool;

    /// The model trained for `part`, if the store has one.
    fn find_model(&self, part: &String) -> (r: Result<Option<FeatureList>, StoreError>)
        requires
            self.wf(),
        ensures
            r matches Ok(Some(m)) ==> self.models().contains_key(part@) && self.models()[part@]
                == m@ && m.wf(),
            r matches Ok(None) ==> !self.models().contains_key(part@),
    ;

    /// The default model, if one is configured; `Ok(None)` means the store
    /// is reachable but no default model exists.
    fn find_default_model(&self) -> (r: Result<Option<FeatureList>, StoreError>)
        requires
            self.wf(),
        ensures
            r matches Ok(Some(m)) ==> self.default_model() == Some(m@) && m.wf(),
            r matches Ok(None) ==> self.default_model() is None,
    ;

    /// Append one activity to the log.  The write either fully succeeds or
    /// leaves the log unchanged; it never touches the models.
    fn model_activity_save(&mut self, part: &String, activity: &Activity) -> (r: Result<
        (),
        StoreError,
    >)
        requires
            old(self).wf(),
        ensures
            final(self).wf(),
            final(self).models() == old(self).models(),
            final(self).default_model() == old(self).default_model(),
            r matches Ok(u) ==> final(self).saved() == old(self).saved().push(activity@),
            r matches Err(e) ==> final(self).saved() == old(self).saved(),
    ;
}

/// The model map an association list stands for: the first entry under a
/// name wins.
pub open spec fn assoc_model_map(s: Seq<(String, FeatureList)>) -> Map<Seq<char>, Seq<(u64, i64)>>
    decreases s.len(),
{
    if s.len() == 0 {
        Map::empty()
    } else {
        assoc_model_map(s.drop_first()).insert(s[0].0@, s[0].1@)
    }
}

/// An in-memory store: the models as an association list, the optional
/// default model, and the activity log as a vector.  The two failure flags
/// make the error paths of callers reachable.
pub struct MemStore {
    pub model_list: Vec<(String, FeatureList)>,
    pub fallback_model: Option<FeatureList>,
    pub activity_log: Vec<Activity>,
    pub fail_reads: bool,
    pub fail_writes: bool,
}

/// The entry at `i` is the one `assoc_model_map` maps its name to, when no
/// earlier entry shares that name.
proof fn lemma_assoc_at(s: Seq<(String, FeatureList)>, i: int)
    requires
        0 <= i < s.len(),
        forall|j: int| 0 <= j < i ==> (#[trigger] s[j]).0@ != s[i].0@,
    ensures
        assoc_model_map(s).contains_key(s[i].0@),
        assoc_model_map(s)[s[i].0@] == s[i].1@,
    decreases i,
{
    if i > 0 {
        assert(forall|j: int|
            0 <= j < i - 1 ==> (#[trigger] s.drop_first()[j]).0@ != s.drop_first()[i - 1].0@);
        lemma_assoc_at(s.drop_first(), i - 1);
        assert(s.drop_first()[i - 1] == s[i]);
    }
}

/// A name under which no entry stands is not in the map.
proof fn lemma_assoc_none(s: Seq<(String, FeatureList)>, k: Seq<char>)
    requires
        forall|j: int| 0 <= j < s.len() ==> (#[trigger] s[j]).0@ != k,
    ensures
        !assoc_model_map(s).contains_key(k),
    decreases s.len(),
{
    if s.len() > 0 {
        assert(forall|j: int| 0 <= j < s.len() - 1 ==> (#[trigger] s.drop_first()[j]).0@ != k);
        lemma_assoc_none(s.drop_first(), k);
    }
}

impl Store for MemStore {
    open spec fn models(&self) -> Map<Seq<char>, Seq<(u64, i64)>> {
        assoc_model_map(self.model_list@)
    }

    open spec fn default_model(&self) -> Option<Seq<(u64, i64)>> {
        match self.fallback_model {
            Some(m) => Some(m@),
            None => None,
        }
    }

    open spec fn saved(&self) -> Seq<ActivityV> {
        self.activity_log@.map_values(|a: Activity| a@)
    }

    open spec fn wf(&self) -> bool {
        &&& forall|i: int|
            0 <= i < self.model_list@.len() ==> (#[trigger] self.model_list@[i]).1.wf()
        &&& match self.fallback_model {
            Some(m) => m.wf(),
            None => true,
        }
    }

    fn find_model(&self, part: &String) -> (r: Result<Option<FeatureList>, StoreError>)
        ensures
            !self.fail_reads ==> r is Ok,
    {
        if self.fail_reads {
            return Err(StoreError::Backend);
        }
        let n = self.model_list.len();
        let mut i: usize = 0;
        while i < n
            invariant
                self.wf(),
                n == self.model_list@.len(),
                i <= n,
                forall|j: int| 0 <= j < i ==> (#[trigger] self.model_list@[j]).0@ != part@,
            decreases n - i,
        {
            let entry = &self.model_list[i];
            if entry.0 == *part {
                proof {
                    assert(self.model_list@[i as int].0@ == part@);
                    lemma_assoc_at(self.model_list@, i as int);
                    assert(self.models().contains_key(part@));
                    assert(self.models()[part@] == self.model_list@[i as int].1@);
                }
                return Ok(Some(entry.1.duplicate()));
            }
            i += 1;
        }
        proof {
            lemma_assoc_none(self.model_list@, part@);
        }
        Ok(None)
    }

    fn find_default_model(&self) -> (r: Result<Option<FeatureList>, StoreError>)
        ensures
            !self.fail_reads ==> r is Ok,
    {
        if self.fail_reads {
            return Err(StoreError::Backend);
        }
        match &self.fallback_model {
            Some(m) => Ok(Some(m.duplicate())),
            None => Ok(None),
        }
    }

    fn model_activity_save(&mut self, part: &String, activity: &Activity) -> (r: Result<
        (),
        StoreError,
    >)
        ensures
            !old(self).fail_writes ==> r is Ok,
    {
        if self.fail_writes {
            return Err(StoreError::Backend);
        }
        self.activity_log.push(activity.duplicate());
        proof {
            assert(self.activity_log@.map_values(|a: Activity| a@) =~= old(
                self,
            ).activity_log@.map_values(|a: Activity| a@).push(activity@));
        }
        Ok(())
    }
}

impl MemStore {
    /// An empty store that never fails: no models, no default, no log.
    pub fn new() -> (r: MemStore)
        ensures
            r.models() == Map::<Seq<char>, Seq<(u64, i64)>>::empty(),
            r.default_model() is None,
            r.saved() == Seq::<ActivityV>::empty(),
            r.wf(),
            !r.fail_reads,
            !r.fail_writes,
    {
        let r = MemStore {
            model_list: Vec::new(),
            fallback_model: None,
            activity_log: Vec::new(),
            fail_reads: false,
            fail_writes: false,
        };
        proof {
            assert(r.saved() =~= Seq::<ActivityV>::empty());
        }
        r
    }
}

} // verus!
