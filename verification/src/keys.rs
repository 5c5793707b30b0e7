//! Grouping keys: which group a study belongs to.
//!
//! A key script is evaluated on a study's attributes and gives the
//! study's key. The library does not run scripts: it takes, study by
//! study, what the script gave. Without a key for a study, the study's
//! own id is its key.

use vstd::prelude::*;
use crate::record::{lemma_study_ids_step, study_ids, study_ids_before, Record};

verus! {

/// The map that a list of `(id, key)` entries stands for: a later entry
/// for an id replaces an earlier one.
pub open spec fn entries_map(s: Seq<(String, String)>) -> Map<Seq<char>, Seq<char>>
    decreases s.len(),
{
    if s.len() == 0 {
        Map::empty()
    } else {
        entries_map(s.drop_last()).insert(s.last().0@, s.last().1@)
    }
}

/// The key of `id` under `m`: the mapped key, or `id` itself where `m`
/// has none.
pub open spec fn resolve_spec(m: Map<Seq<char>, Seq<char>>, id: Seq<char>) -> Seq<char> {
    if m.contains_key(id) {
        m[id]
    } else {
        id
    }
}

/// Where the last entry for `id` stands in `s`, if there is one.
pub proof fn lemma_entries_map_last(s: Seq<(String, String)>, id: Seq<char>, i: int)
    requires
        0 <= i < s.len(),
        s[i].0@ == id,
        forall|j: int| i < j < s.len() ==> (#[trigger] s[j]).0@ != id,
    ensures
        entries_map(s).contains_key(id),
        entries_map(s)[id] == s[i].1@,
    decreases s.len(),
{
    if i < s.len() - 1 {
        assert(s.last() == s[s.len() - 1]);
        lemma_entries_map_last(s.drop_last(), id, i);
    }
}

/// An id that no entry names has no key.
pub proof fn lemma_entries_map_absent(s: Seq<(String, String)>, id: Seq<char>)
    requires
        forall|j: int| 0 <= j < s.len() ==> (#[trigger] s[j]).0@ != id,
    ensures
        !entries_map(s).contains_key(id),
    decreases s.len(),
{
    if s.len() > 0 {
        assert(s.last() == s[s.len() - 1]);
        lemma_entries_map_absent(s.drop_last(), id);
    }
}

/// Keys by study id.
#[derive(Debug)]
pub struct KeyMap {
    pub entries: Vec<(String, String)>,
}

impl View for KeyMap {
    type V = Map<Seq<char>, Seq<char>>;

    open spec fn view(&self) -> Map<Seq<char>, Seq<char>> {
        entries_map(self.entries@)
    }
}

impl KeyMap {
    pub fn new() -> (r: KeyMap)
        ensures
            r@ == Map::<Seq<char>, Seq<char>>::empty(),
    {
        KeyMap { entries: Vec::new() }
    }

    /// Gives `id` the key `key`, in place of any key it had.
    pub fn insert(&mut self, id: String, key: String)
        ensures
            final(self)@ == old(self)@.insert(id@, key@),
    {
        let ghost before = self.entries@;
        self.entries.push((id, key));
        assert(self.entries@.drop_last() =~= before);
    }

    /// The key that was given to `id`, if any.
    pub fn get(&self, id: &String) -> (r: Option<&String>)
        ensures
            match r {
                Some(key) => self@.contains_key(id@) && key@ == self@[id@],
                None => !self@.contains_key(id@),
            },
    {
        let mut i: usize = self.entries.len();
        while i > 0
            invariant
                i <= self.entries@.len(),
                forall|j: int|
                    i <= j < self.entries@.len() ==> (#[trigger] self.entries@[j]).0@ != id@,
            decreases i,
        {
            i = i - 1;
            if self.entries[i].0 == *id {
                proof {
                    lemma_entries_map_last(self.entries@, id@, i as int);
                }
                return Some(&self.entries[i].1);
            }
        }
        proof {
            lemma_entries_map_absent(self.entries@, id@);
        }
        None
    }

    /// Whether `id` was given a key.
    pub fn contains_key(&self, id: &String) -> (r: bool)
        ensures
            r == self@.contains_key(id@),
    {
        self.get(id).is_some()
    }

    /// The group of `id`: its key, or `id` itself where it has none.
    pub fn resolve(&self, id: &String) -> (r: String)
        ensures
            r@ == resolve_spec(self@, id@),
    {
        match self.get(id) {
            Some(key) => key.clone(),
            None => id.clone(),
        }
    }
}

/// Why a key script gave no key for a study.
#[derive(Debug)]
pub struct ScriptError {
    pub message: String,
}

/// What a key script gave for one study: the key, or why there is none.
pub type Outcome = Result<String, ScriptError>;

/// Why the studies have no keys.
#[derive(Debug)]
pub enum KeyError {
    /// The key script failed on the study record at this position.
    Script { record: usize, error: ScriptError },
    /// There is no outcome for the study record at this position.
    Missing { record: usize },
}

/// The keys so far, and how many outcomes they took.
pub struct Keyed {
    pub keys: Map<Seq<char>, Seq<char>>,
    pub used: nat,
}

/// The keys after the first `n` records: every study record takes the
/// next outcome, in order. A key goes into the map under the study's id;
/// a failure stops, and so does a study record for which no outcome is
/// left.
pub open spec fn keyed(records: Seq<Record>, outcomes: Seq<Outcome>, n: int) -> Result<
    Keyed,
    KeyError,
>
    decreases n,
{
    if n <= 0 {
        Ok(Keyed { keys: Map::empty(), used: 0 })
    } else {
        match keyed(records, outcomes, n - 1) {
            Err(e) => Err(e),
            Ok(k) => match records[n - 1] {
                Record::Eval(_) => Ok(k),
                Record::Study(study) => if k.used >= outcomes.len() {
                    Err(KeyError::Missing { record: (n - 1) as usize })
                } else {
                    match outcomes[k.used as int] {
                        Ok(key) => Ok(
                            Keyed { keys: k.keys.insert(study.id@, key@), used: k.used + 1 },
                        ),
                        Err(e) => Err(KeyError::Script { record: (n - 1) as usize, error: e }),
                    }
                },
            },
        }
    }
}

/// The keys of the studies among `records`, given what the key script
/// gave for each of them in order.
pub open spec fn key_mapping(records: Seq<Record>, outcomes: Seq<Outcome>) -> Result<
    Map<Seq<char>, Seq<char>>,
    KeyError,
> {
    match keyed(records, outcomes, records.len() as int) {
        Ok(k) => Ok(k.keys),
        Err(e) => Err(e),
    }
}

/// Once a study has stopped the keying, the records after it change
/// nothing.
pub proof fn lemma_keyed_error_stays(records: Seq<Record>, outcomes: Seq<Outcome>, n: int)
    requires
        0 <= n <= records.len(),
        keyed(records, outcomes, n) is Err,
    ensures
        keyed(records, outcomes, records.len() as int) == keyed(records, outcomes, n),
    decreases records.len() - n,
{
    if n < records.len() {
        assert(keyed(records, outcomes, n + 1) == keyed(records, outcomes, n));
        lemma_keyed_error_stays(records, outcomes, n + 1);
    }
}

/// Where every study has got its key, the keys are those of the studies'
/// ids.
pub proof fn lemma_keyed_ids(records: Seq<Record>, outcomes: Seq<Outcome>, n: int)
    requires
        0 <= n <= records.len(),
        keyed(records, outcomes, n) is Ok,
    ensures
        keyed(records, outcomes, n)->Ok_0.keys.dom() == study_ids_before(records, n),
    decreases n,
{
    if n > 0 {
        lemma_keyed_ids(records, outcomes, n - 1);
        lemma_study_ids_step(records, n - 1);
    } else {
        assert(study_ids_before(records, 0) =~= Set::<Seq<char>>::empty());
    }
}

impl KeyMap {
    /// Takes what the key script gave for the study `id`: a key goes
    /// into the map, in place of any key the study had; a failure leaves
    /// the map as it is and is handed back.
    pub fn assign(&mut self, id: &String, outcome: &Outcome) -> (r: Result<(), ScriptError>)
        ensures
            match *outcome {
                Ok(key) => r is Ok && final(self)@ == old(self)@.insert(id@, key@),
                Err(e) => r == Err::<(), ScriptError>(e) && final(self)@ == old(self)@,
            },
    {
        match outcome {
            Ok(key) => {
                self.insert(id.clone(), key.clone());
                Ok(())
            },
            Err(e) => Err(ScriptError { message: e.message.clone() }),
        }
    }
}

/// Maps the id of every study among `records` to its key, given what
/// the key script gave for each of them in order. Stops at the first
/// study for which the script failed or for which no outcome is given.
pub fn build_id_mapping(records: &Vec<Record>, outcomes: &Vec<Outcome>) -> (r: Result<
    KeyMap,
    KeyError,
>)
    ensures
        match r {
            Ok(m) => key_mapping(records@, outcomes@) == Ok::<Map<Seq<char>, Seq<char>>, KeyError>(
                m@,
            ) && m@.dom() == study_ids(records@),
            Err(e) => key_mapping(records@, outcomes@) == Err::<
                Map<Seq<char>, Seq<char>>,
                KeyError,
            >(e),
        },
{
    let mut mapping = KeyMap::new();
    let mut used: usize = 0;
    let mut i: usize = 0;
    while i < records.len()
        invariant
            i <= records@.len(),
            used <= outcomes@.len(),
            keyed(records@, outcomes@, i as int) == Ok::<Keyed, KeyError>(
                Keyed { keys: mapping@, used: used as nat },
            ),
        decreases records@.len() - i,
    {
        if let Record::Study(study) = &records[i] {
            if used >= outcomes.len() {
                proof {
                    lemma_keyed_error_stays(records@, outcomes@, i as int + 1);
                }
                return Err(KeyError::Missing { record: i });
            }
            match mapping.assign(&study.id, &outcomes[used]) {
                Ok(()) => {
                    used = used + 1;
                },
                Err(error) => {
                    proof {
                        lemma_keyed_error_stays(records@, outcomes@, i as int + 1);
                    }
                    return Err(KeyError::Script { record: i, error });
                },
            }
        }
        i = i + 1;
    }
    proof {
        lemma_keyed_ids(records@, outcomes@, records@.len() as int);
    }
    Ok(mapping)
}

} // verus!
