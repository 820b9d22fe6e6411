use vstd::prelude::*;

verus! {

/// A named collection of parameters of one type `T`, keyed by parameter
/// name. Inserting under an existing name overrides the earlier value.
pub struct Internals<T> {
    params: Vec<(String, T)>,
}

/// The map an association list denotes, with later entries overriding
/// earlier ones.
pub open spec fn kv_map<T>(entries: Seq<(String, T)>) -> Map<Seq<char>, T>
    decreases entries.len(),
{
    if entries.len() == 0 {
        Map::empty()
    } else {
        kv_map(entries.drop_last()).insert(entries.last().0@, entries.last().1)
    }
}

impl<T> View for Internals<T> {
    type V = Map<Seq<char>, T>;

    closed spec fn view(&self) -> Map<Seq<char>, T> {
        kv_map(self.params@)
    }
}

impl<T> Internals<T> {
    pub fn new() -> (r: Self)
        ensures
            r@ == Map::<Seq<char>, T>::empty(),
    {
        Internals { params: Vec::new() }
    }

    /// Adds a parameter with the given name and value; an existing parameter
    /// of that name is overridden.
    pub fn insert_param(&mut self, name: &str, value: T)
        ensures
            final(self)@ == old(self)@.insert(name@, value),
    {
        let key = name.to_owned();
        self.params.push((key, value));
        proof {
            assert(self.params@.drop_last() =~= old(self).params@);
            assert(self@ =~= old(self)@.insert(name@, value));
        }
    }

    /// Whether a parameter with the given name has been inserted.
    pub fn contains_param(&self, name: &str) -> (r: bool)
        ensures
            r == self@.contains_key(name@),
    {
        let key = name.to_owned();
        let ghost entries = self.params@;
        let mut k: usize = 0;
        while k < self.params.len()
            invariant
                k <= entries.len(),
                self.params@ == entries,
                key@ == name@,
                forall|i: int| 0 <= i < k ==> (#[trigger] entries[i]).0@ != name@,
            decreases entries.len() - k,
        {
            if self.params[k].0 == key {
                proof {
                    let kk = k as int;
                    lemma_kv_map_key_present(entries, kk);
                }
                return true;
            }
            k += 1;
        }
        proof {
            lemma_kv_map_keys(entries, name@);
        }
        false
    }

    /// The value of the parameter with the given name, which must have been
    /// inserted before.
    pub fn get_param(&self, name: &str) -> (r: &T)
        requires
            self@.contains_key(name@),
        ensures
            *r == self@[name@],
    {
        let key = name.to_owned();
        let ghost entries = self.params@;
        let mut k: usize = self.params.len();
        proof {
            assert(entries.take(k as int) =~= entries);
        }
        loop
            invariant
                0 <= k <= entries.len(),
                self.params@ == entries,
                key@ == name@,
                kv_map(entries.take(k as int)).contains_key(name@),
                kv_map(entries.take(k as int))[name@] == self@[name@],
            decreases k,
        {
            proof {
                if k == 0 {
                    assert(entries.take(0) =~= Seq::<(String, T)>::empty());
                    assert(false);
                }
                assert(entries.take(k as int).last() == entries[k as int - 1]);
                assert(entries.take(k as int).drop_last() =~= entries.take(k as int - 1));
            }
            if self.params[k - 1].0 == key {
                return &self.params[k - 1].1;
            }
            k = k - 1;
        }
    }
}

/// An entry's key is a key of the denoted map.
proof fn lemma_kv_map_key_present<T>(entries: Seq<(String, T)>, k: int)
    requires
        0 <= k < entries.len(),
    ensures
        kv_map(entries).contains_key(entries[k].0@),
    decreases entries.len(),
{
    if k < entries.len() - 1 {
        lemma_kv_map_key_present(entries.drop_last(), k);
    }
}

/// A name that no entry carries is no key of the denoted map.
proof fn lemma_kv_map_keys<T>(entries: Seq<(String, T)>, name: Seq<char>)
    requires
        forall|i: int| 0 <= i < entries.len() ==> (#[trigger] entries[i]).0@ != name,
    ensures
        !kv_map(entries).contains_key(name),
    decreases entries.len(),
{
    if entries.len() > 0 {
        lemma_kv_map_keys(entries.drop_last(), name);
    }
}

impl<T> Default for Internals<T> {
    fn default() -> (r: Self)
        ensures
            r@ == Map::<Seq<char>, T>::empty(),
    {
        Internals { params: Vec::new() }
    }
}

} // verus!
