//! Parameters that a scheduler is configured with.
use vstd::prelude::*;

verus! {

/// The parameter map that a list of `key=value` settings gives: a later
/// setting of a key overrides an earlier one.
pub open spec fn params_map(entries: Seq<(String, String)>) -> Map<Seq<char>, Seq<char>>
    decreases entries.len(),
{
    if entries.len() == 0 {
        Map::empty()
    } else {
        params_map(entries.drop_last()).insert(entries.last().0@, entries.last().1@)
    }
}

/// A scheduler name with its textual parameters.
pub struct SchedulerParams {
    name: String,
    params: Vec<(String, String)>,
}

impl View for SchedulerParams {
    type V = Map<Seq<char>, Seq<char>>;

    closed spec fn view(&self) -> Map<Seq<char>, Seq<char>> {
        params_map(self.params@)
    }
}

impl SchedulerParams {
    /// The scheduler name.
    pub closed spec fn spec_name(&self) -> Seq<char> {
        self.name@
    }

    /// Parameters of the scheduler `name`, none of them set.
    pub fn new(name: String) -> (r: SchedulerParams)
        ensures
            r.spec_name() == name@,
            r@ == Map::<Seq<char>, Seq<char>>::empty(),
    {
        SchedulerParams { name, params: Vec::new() }
    }

    /// Sets the parameter `key` to `value`, replacing an earlier value.
    pub fn with_param(self, key: String, value: String) -> (r: SchedulerParams)
        ensures
            r.spec_name() == self.spec_name(),
            r@ == self@.insert(key@, value@),
    {
        let mut params = self.params;
        let ghost before = params@;
        params.push((key, value));
        proof {
            assert(params@.drop_last() =~= before);
        }
        SchedulerParams { name: self.name, params }
    }

    /// The scheduler name.
    pub fn name(&self) -> (r: &String)
        ensures
            r@ == self.spec_name(),
    {
        &self.name
    }

    /// The value of the parameter `key`, if it is set.
    pub fn get(&self, key: &String) -> (r: Option<&String>)
        ensures
            r is Some <==> self@.contains_key(key@),
            r matches Some(v) ==> v@ == self@[key@],
    {
        let ghost entries = self.params@;
        let mut i: usize = self.params.len();
        proof {
            assert(entries.take(i as int) =~= entries);
        }
        while i > 0
            invariant
                i <= entries.len(),
                entries == self.params@,
                params_map(entries).contains_key(key@) == params_map(entries.take(i as int)).contains_key(key@),
                params_map(entries).contains_key(key@) ==> params_map(entries)[key@] == params_map(entries.take(i as int))[key@],
            decreases i,
        {
            i = i - 1;
            proof {
                assert(entries.take(i + 1).drop_last() =~= entries.take(i as int));
                assert(entries.take(i + 1).last() == entries[i as int]);
            }
            if self.params[i].0.eq(key) {
                return Some(&self.params[i].1);
            }
        }
        proof {
            assert(entries.take(0) =~= Seq::<(String, String)>::empty());
        }
        None
    }
}

} // verus!
