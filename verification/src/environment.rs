//! The frames that hold the values of variables at run time. A frame owns the
//! frame it was opened in, so a chain of frames runs from the innermost frame
//! out to the global one.
use vstd::prelude::*;
use interb::Symbol as Name;

use crate::text::{chars_of, push_char};

verus! {

#[verifier::external_type_specification]
#[verifier::external_body]
pub struct ExName(Name);

/// `==` on `interb::Name`, which its derive compares by the interned index:
/// two symbols are equal exactly when they are the same value.
#[verifier::external_body]
fn symbol_eq(a: &Name, b: &Name) -> (r: bool)
    ensures
        r == (*a == *b),
{
    *a == *b
}

#[derive(Debug, PartialEq, Eq)]
pub enum EnvironmentError {
    Other { message: String },
}

/// `prefix`, `key` and `suffix` one after the other.
fn message(prefix: &str, key: &str, suffix: &str) -> (r: String)
    ensures
        r@ == prefix@ + key@ + suffix@,
{
    let mut r = String::new();
    let parts = [chars_of(prefix), chars_of(key), chars_of(suffix)];
    let ghost whole = prefix@ + key@ + suffix@;
    let mut done: usize = 0;
    let mut p: usize = 0;
    while p < 3
        invariant
            p <= 3,
            parts@.len() == 3,
            parts@[0]@ == prefix@,
            parts@[1]@ == key@,
            parts@[2]@ == suffix@,
            whole == prefix@ + key@ + suffix@,
            r@ == if p == 0 {
                Seq::<char>::empty()
            } else if p == 1 {
                prefix@
            } else if p == 2 {
                prefix@ + key@
            } else {
                whole
            },
        decreases 3 - p,
    {
        let ghost start = r@;
        let mut i: usize = 0;
        while i < parts[p].len()
            invariant
                p < 3,
                parts@.len() == 3,
                i <= parts@[p as int]@.len(),
                r@ == start + parts@[p as int]@.subrange(0, i as int),
            decreases parts@[p as int]@.len() - i,
        {
            push_char(&mut r, parts[p][i]);
            assert(r@ =~= start + parts@[p as int]@.subrange(0, i + 1));
            i = i + 1;
        }
        assert(parts@[p as int]@.subrange(0, i as int) =~= parts@[p as int]@);
        p = p + 1;
    }
    r
}

/// The entries of a frame, each name at most once, as a map.
pub open spec fn pairs_map<V>(s: Seq<(Name, V)>) -> Map<Name, V>
    decreases s.len(),
{
    if s.len() == 0 {
        Map::empty()
    } else {
        pairs_map(s.drop_last()).insert(s.last().0, s.last().1)
    }
}

pub open spec fn names_unique<V>(s: Seq<(Name, V)>) -> bool {
    forall|i: int, j: int| 0 <= i < j < s.len() ==> s[i].0 != s[j].0
}

/// The index of the innermost frame that holds `k`.
pub open spec fn find_frame<V>(frames: Seq<Map<Name, V>>, k: Name) -> Option<int>
    decreases frames.len(),
{
    if frames.len() == 0 {
        None
    } else if frames[0].dom().contains(k) {
        Some(0)
    } else {
        match find_frame(frames.drop_first(), k) {
            Some(i) => Some(i + 1),
            None => None,
        }
    }
}

/// The value of `k` as seen from the innermost frame.
pub open spec fn lookup<V>(frames: Seq<Map<Name, V>>, k: Name) -> Option<V> {
    match find_frame(frames, k) {
        Some(i) => Some(frames[i][k]),
        None => None,
    }
}

/// The frames after `k` is defined as `v` in the innermost frame.
pub open spec fn define_spec<V>(frames: Seq<Map<Name, V>>, k: Name, v: V) -> Seq<Map<Name, V>> {
    frames.update(0, frames[0].insert(k, v))
}

/// The frames after `k` is assigned `v`: in the innermost frame that holds
/// it, or nowhere.
pub open spec fn assign_spec<V>(frames: Seq<Map<Name, V>>, k: Name, v: V) -> Seq<Map<Name, V>> {
    match find_frame(frames, k) {
        Some(i) => frames.update(i, frames[i].insert(k, v)),
        None => frames,
    }
}

/// The frames after `k` is assigned `v` from the frame `d` frames out.
pub open spec fn assign_at_spec<V>(frames: Seq<Map<Name, V>>, d: int, k: Name, v: V) -> Seq<Map<Name, V>> {
    frames.subrange(0, d) + assign_spec(frames.subrange(d, frames.len() as int), k, v)
}

/// What a read at distance `d` finds: for a distance of zero or one, the value
/// seen from that frame; for a larger one, the value in that frame alone.
pub open spec fn read_at_spec<V>(frames: Seq<Map<Name, V>>, d: int, k: Name) -> Option<V> {
    if d <= 1 {
        lookup(frames.subrange(d, frames.len() as int), k)
    } else if frames[d].dom().contains(k) {
        Some(frames[d][k])
    } else {
        None
    }
}

pub open spec fn not_found_message(key: Seq<char>) -> Seq<char> {
    "Variable '"@ + key + "' was not found"@
}

pub open spec fn undefined_assignment_message(key: Seq<char>) -> Seq<char> {
    "Assignment to an undefined variable '"@ + key + "'"@
}

/// One frame of variables and the frame it was opened in.
#[verifier::reject_recursive_types(V)]
pub struct EnvironmentFrame<V> {
    map: Vec<(Name, V)>,
    pub parent: Option<Box<EnvironmentFrame<V>>>,
}

impl<V> EnvironmentFrame<V> {
    /// The frames from this one out to the global one, each as a map.
    pub closed spec fn frames(&self) -> Seq<Map<Name, V>>
        decreases self,
    {
        match self.parent {
            Some(p) => seq![pairs_map(self.map@)].add(p.frames()),
            None => seq![pairs_map(self.map@)],
        }
    }

    /// Each frame holds each name at most once.
    pub closed spec fn wf(&self) -> bool
        decreases self,
    {
        &&& names_unique(self.map@)
        &&& match self.parent {
            Some(p) => p.wf(),
            None => true,
        }
    }

    proof fn lemma_frames(&self)
        ensures
            self.frames().len() >= 1,
            self.frames()[0] == pairs_map(self.map@),
            self.parent matches Some(p) ==> self.frames().drop_first() == p.frames(),
            self.parent is None ==> self.frames().len() == 1,
    {
        match &self.parent {
            Some(p) => {
                assert(self.frames().drop_first() =~= p.frames());
            },
            None => {},
        }
    }

    pub fn new(parent: Option<Box<EnvironmentFrame<V>>>) -> (r: EnvironmentFrame<V>)
        requires
            parent matches Some(p) ==> p.wf(),
        ensures
            r.wf(),
            r.frames() == match parent {
                Some(p) => seq![Map::<Name, V>::empty()].add(p.frames()),
                None => seq![Map::<Name, V>::empty()],
            },
    {
        let r = EnvironmentFrame { map: Vec::new(), parent };
        proof {
            assert(pairs_map(r.map@) =~= Map::<Name, V>::empty());
        }
        r
    }

    /// The position of `name` among the entries of this frame.
    fn position(&self, name: &Name) -> (r: Option<usize>)
        requires
            self.wf(),
        ensures
            match r {
                Some(i) => i < self.map@.len() && self.map@[i as int].0 == *name,
                None => !pairs_map(self.map@).dom().contains(*name),
            },
    {
        let mut i: usize = 0;
        while i < self.map.len()
            invariant
                i <= self.map@.len(),
                forall|j: int| 0 <= j < i ==> self.map@[j].0 != *name,
            decreases self.map@.len() - i,
        {
            if symbol_eq(&self.map[i].0, name) {
                return Some(i);
            }
            i = i + 1;
        }
        proof {
            lemma_pairs_map_dom(self.map@, *name);
        }
        None
    }

    /// Gives `name` the value `value` in this frame.
    pub fn define(&mut self, name: Name, value: V)
        requires
            old(self).wf(),
        ensures
            final(self).wf(),
            final(self).frames() == define_spec(old(self).frames(), name, value),
    {
        proof {
            self.lemma_frames();
        }
        match self.position(&name) {
            Some(i) => {
                let ghost before = self.map@;
                proof {
                    lemma_pairs_map_update(before, i as int, value);
                }
                self.map.set(i, (name, value));
            },
            None => {
                let ghost before = self.map@;
                self.map.push((name, value));
                proof {
                    assert(self.map@.drop_last() =~= before);
                    lemma_pairs_map_dom(before, name);
                    assert forall|i: int, j: int| 0 <= i < j < self.map@.len() implies self.map@[i].0 != self.map@[j].0 by {
                        if j == self.map@.len() - 1 {
                            assert(before[i].0 != name);
                        } else {
                            assert(self.map@[i] == before[i] && self.map@[j] == before[j]);
                        }
                    }
                }
            },
        }
        proof {
            self.lemma_frames();
            assert(self.frames() =~= define_spec(old(self).frames(), name, value));
        }
    }

    proof fn lemma_parent_wf(&self)
        requires
            self.wf(),
        ensures
            names_unique(self.map@),
            self.parent matches Some(p) ==> p.wf(),
    {
    }

    /// Gives `key_sym` the value `value` in the innermost frame that holds it;
    /// fails where no frame does.
    pub fn assign(&mut self, key: &str, key_sym: Name, value: V) -> (r: Result<bool, EnvironmentError>)
        requires
            old(self).wf(),
        ensures
            final(self).wf(),
            final(self).frames() == assign_spec(old(self).frames(), key_sym, value),
            match find_frame(old(self).frames(), key_sym) {
                Some(_) => r == Ok::<bool, EnvironmentError>(true),
                None => r matches Err(EnvironmentError::Other { message }) && message@
                    == undefined_assignment_message(key@),
            },
        decreases old(self).frames().len(),
    {
        proof {
            self.lemma_frames();
            self.lemma_parent_wf();
        }
        let ghost fs = self.frames();
        match self.position(&key_sym) {
            Some(i) => {
                let ghost before = self.map@;
                proof {
                    lemma_pairs_map_update(before, i as int, value);
                    lemma_pairs_map_value(before, i as int);
                }
                self.map.set(i, (key_sym, value));
                proof {
                    self.lemma_frames();
                    assert(self.frames() =~= assign_spec(fs, key_sym, value));
                }
                Ok(true)
            },
            None => {
                if self.parent.is_none() {
                    proof {
                        assert(find_frame(fs.drop_first(), key_sym) is None);
                    }
                    return Err(
                        EnvironmentError::Other {
                            message: message("Assignment to an undefined variable '", key, "'"),
                        },
                    );
                }
                let ghost pf = self.parent->0.frames();
                let r = self.parent.as_mut().unwrap().assign(key, key_sym, value);
                proof {
                    self.lemma_frames();
                    assert(fs.drop_first() == pf);
                    lemma_find_frame(pf, key_sym);
                    match find_frame(pf, key_sym) {
                        Some(j) => {
                            assert(find_frame(fs, key_sym) == Some(j + 1));
                            assert(self.frames()[0] == fs[0]);
                            assert(self.frames().drop_first() == assign_spec(pf, key_sym, value));
                            assert(fs[j + 1] == pf[j]);
                            assert(assign_spec(fs, key_sym, value) == fs.update(j + 1, fs[j + 1].insert(key_sym, value)));
                            assert(assign_spec(pf, key_sym, value) == pf.update(j, pf[j].insert(key_sym, value)));
                            assert forall|i: int| 0 <= i < self.frames().len() implies self.frames()[i] == assign_spec(fs, key_sym, value)[i] by {
                                if i > 0 {
                                    assert(self.frames()[i] == self.frames().drop_first()[i - 1]);
                                }
                            }
                            assert(self.frames() =~= assign_spec(fs, key_sym, value));
                        },
                        None => {
                            assert(self.frames() =~= fs);
                        },
                    }
                }
                r
            },
        }
    }

    /// The value of `key_sym` as seen from this frame; fails where no frame
    /// holds it.
    pub fn read(&self, key: &str, key_sym: &Name) -> (r: Result<V, EnvironmentError>) where
        V: Clone,
        requires
            self.wf(),
        ensures
            match lookup(self.frames(), *key_sym) {
                Some(v) => r matches Ok(x) && cloned(v, x),
                None => r matches Err(EnvironmentError::Other { message }) && message@
                    == not_found_message(key@),
            },
        decreases self,
    {
        proof {
            self.lemma_frames();
            self.lemma_parent_wf();
        }
        match self.position(key_sym) {
            Some(i) => {
                proof {
                    lemma_pairs_map_value(self.map@, i as int);
                    assert(lookup(self.frames(), *key_sym) == Some(self.map@[i as int].1));
                }
                let x = self.map[i].1.clone();
                assert(cloned(self.map@[i as int].1, x));
                Ok(x)
            },
            None => match &self.parent {
                Some(p) => {
                    proof {
                        lemma_find_frame(p.frames(), *key_sym);
                        match find_frame(p.frames(), *key_sym) {
                            Some(j) => {
                                assert(find_frame(self.frames(), *key_sym) == Some(j + 1));
                                assert(self.frames()[j + 1] == p.frames()[j]);
                            },
                            None => {},
                        }
                        assert(lookup(self.frames(), *key_sym) == lookup(p.frames(), *key_sym));
                    }
                    p.read(key, key_sym)
                },
                None => {
                    proof {
                        lemma_find_frame(self.frames(), *key_sym);
                        assert(lookup(self.frames(), *key_sym) is None);
                    }
                    Err(
                        EnvironmentError::Other { message: message("Variable '", key, "' was not found") },
                    )
                },
            },
        }
    }

    /// The frame `distance` frames out from this one.
    fn to_ancestor(&self, distance: usize) -> (r: &EnvironmentFrame<V>)
        requires
            self.wf(),
            distance < self.frames().len(),
        ensures
            r.wf(),
            r.frames() == self.frames().subrange(distance as int, self.frames().len() as int),
        decreases distance,
    {
        proof {
            self.lemma_frames();
        }
        if distance == 0 {
            assert(self.frames().subrange(0, self.frames().len() as int) =~= self.frames());
            return self;
        }
        let p = self.parent.as_ref().unwrap();
        let r = p.to_ancestor(distance - 1);
        assert(p.frames().subrange(distance - 1, p.frames().len() as int) =~= self.frames().subrange(
            distance as int,
            self.frames().len() as int,
        ));
        r
    }

    /// Assigns in the frame `distance` frames out, searching outwards from it.
    fn assign_in_ancestor(&mut self, distance: usize, key: &str, key_sym: Name, value: V) -> (r: Result<bool, EnvironmentError>)
        requires
            old(self).wf(),
            distance < old(self).frames().len(),
        ensures
            final(self).wf(),
            final(self).frames() == assign_at_spec(old(self).frames(), distance as int, key_sym, value),
            match find_frame(old(self).frames().subrange(distance as int, old(self).frames().len() as int), key_sym) {
                Some(_) => r == Ok::<bool, EnvironmentError>(true),
                None => r matches Err(EnvironmentError::Other { message }) && message@
                    == undefined_assignment_message(key@),
            },
        decreases distance,
    {
        proof {
            self.lemma_frames();
            self.lemma_parent_wf();
        }
        let ghost fs = self.frames();
        if distance == 0 {
            assert(fs.subrange(0, fs.len() as int) =~= fs);
            let r = self.assign(key, key_sym, value);
            assert(assign_at_spec(fs, 0, key_sym, value) =~= assign_spec(fs, key_sym, value));
            return r;
        }
        let ghost pf = self.parent->0.frames();
        let r = self.parent.as_mut().unwrap().assign_in_ancestor(distance - 1, key, key_sym, value);
        proof {
            self.lemma_frames();
            assert(pf.subrange(distance - 1, pf.len() as int) =~= fs.subrange(distance as int, fs.len() as int));
            assert(self.frames() =~= assign_at_spec(fs, distance as int, key_sym, value));
        }
        r
    }

    /// The value of `key_sym` at `distance` frames out: for a distance of zero
    /// or one, as seen from that frame; for a larger one, in that frame alone.
    pub fn read_at(env: &EnvironmentFrame<V>, distance: usize, key: &str, key_sym: &Name) -> (r: Result<V, EnvironmentError>) where
        V: Clone,
        requires
            env.wf(),
            distance < env.frames().len(),
        ensures
            match read_at_spec(env.frames(), distance as int, *key_sym) {
                Some(v) => r matches Ok(x) && cloned(v, x),
                None => r matches Err(EnvironmentError::Other { message }) && message@
                    == not_found_message(key@),
            },
    {
        proof {
            env.lemma_frames();
        }
        if distance == 0 {
            assert(env.frames().subrange(0, env.frames().len() as int) =~= env.frames());
            return env.read(key, key_sym);
        }
        if distance == 1 && env.parent.is_some() {
            let p = env.parent.as_ref().unwrap();
            proof {
                env.lemma_parent_wf();
                assert(env.frames().subrange(1, env.frames().len() as int) =~= p.frames());
            }
            return p.read(key, key_sym);
        }
        let ancestor = env.to_ancestor(distance);
        proof {
            ancestor.lemma_frames();
            ancestor.lemma_parent_wf();
        }
        match ancestor.position(key_sym) {
            Some(i) => {
                proof {
                    lemma_pairs_map_value(ancestor.map@, i as int);
                }
                Ok(ancestor.map[i].1.clone())
            },
            None => Err(
                EnvironmentError::Other { message: message("Variable '", key, "' was not found") },
            ),
        }
    }

    /// Assigns `key_sym` from the frame `distance` frames out, searching
    /// outwards from it.
    pub fn assign_at(env: &mut EnvironmentFrame<V>, distance: usize, key: &str, key_sym: Name, value: V) -> (r: Result<bool, EnvironmentError>)
        requires
            old(env).wf(),
            distance < old(env).frames().len(),
        ensures
            final(env).wf(),
            final(env).frames() == assign_at_spec(old(env).frames(), distance as int, key_sym, value),
            match find_frame(old(env).frames().subrange(distance as int, old(env).frames().len() as int), key_sym) {
                Some(_) => r == Ok::<bool, EnvironmentError>(true),
                None => r matches Err(EnvironmentError::Other { message }) && message@
                    == undefined_assignment_message(key@),
            },
    {
        if distance == 0 {
            return env.assign_in_ancestor(0, key, key_sym, value);
        }
        if distance == 1 && env.parent.is_some() {
            return env.assign_in_ancestor(1, key, key_sym, value);
        }
        env.assign_in_ancestor(distance, key, key_sym, value)
    }
}

/// Where `find_frame` points, the name is; where it points nowhere, no frame
/// holds the name; and no frame before the one it points to holds it.
pub proof fn lemma_find_frame<V>(frames: Seq<Map<Name, V>>, k: Name)
    ensures
        match find_frame(frames, k) {
            Some(i) => 0 <= i < frames.len() && frames[i].dom().contains(k) && forall|j: int|
                0 <= j < i ==> !(#[trigger] frames[j]).dom().contains(k),
            None => forall|j: int| 0 <= j < frames.len() ==> !(#[trigger] frames[j]).dom().contains(k),
        },
    decreases frames.len(),
{
    if frames.len() > 0 && !frames[0].dom().contains(k) {
        lemma_find_frame(frames.drop_first(), k);
        assert forall|j: int| 1 <= j < frames.len() implies frames[j] == frames.drop_first()[j - 1] by {}
    }
}

proof fn lemma_pairs_map_dom<V>(s: Seq<(Name, V)>, k: Name)
    ensures
        pairs_map(s).dom().contains(k) <==> exists|i: int| 0 <= i < s.len() && s[i].0 == k,
    decreases s.len(),
{
    if s.len() > 0 {
        lemma_pairs_map_dom(s.drop_last(), k);
        if pairs_map(s.drop_last()).dom().contains(k) {
            let i = choose|i: int| 0 <= i < s.drop_last().len() && s.drop_last()[i].0 == k;
            assert(s[i].0 == k);
        }
        if exists|i: int| 0 <= i < s.len() && s[i].0 == k {
            let i = choose|i: int| 0 <= i < s.len() && s[i].0 == k;
            if i < s.len() - 1 {
                assert(s.drop_last()[i].0 == k);
            }
        }
    }
}

proof fn lemma_pairs_map_value<V>(s: Seq<(Name, V)>, i: int)
    requires
        names_unique(s),
        0 <= i < s.len(),
    ensures
        pairs_map(s).dom().contains(s[i].0),
        pairs_map(s)[s[i].0] == s[i].1,
    decreases s.len(),
{
    if i < s.len() - 1 {
        lemma_pairs_map_value(s.drop_last(), i);
        assert(s.drop_last()[i] == s[i]);
    }
}

proof fn lemma_pairs_map_update<V>(s: Seq<(Name, V)>, i: int, v: V)
    requires
        names_unique(s),
        0 <= i < s.len(),
    ensures
        names_unique(s.update(i, (s[i].0, v))),
        pairs_map(s.update(i, (s[i].0, v))) == pairs_map(s).insert(s[i].0, v),
    decreases s.len(),
{
    let t = s.update(i, (s[i].0, v));
    if i == s.len() - 1 {
        assert(t.drop_last() =~= s.drop_last());
    } else {
        lemma_pairs_map_update(s.drop_last(), i, v);
        assert(t.drop_last() =~= s.drop_last().update(i, (s[i].0, v)));
        assert(pairs_map(t) =~= pairs_map(s).insert(s[i].0, v));
    }
}

/// After a name is defined in a frame, reading it from that frame gives the
/// value defined.
pub proof fn law_read_after_define<V>(frames: Seq<Map<Name, V>>, k: Name, v: V)
    requires
        frames.len() >= 1,
    ensures
        lookup(define_spec(frames, k, v), k) == Some(v),
{
}

/// Defining a name in a frame leaves the frames around it as they were.
pub proof fn law_define_keeps_outer_frames<V>(frames: Seq<Map<Name, V>>, k: Name, v: V)
    requires
        frames.len() >= 1,
    ensures
        define_spec(frames, k, v).drop_first() == frames.drop_first(),
{
    assert(define_spec(frames, k, v).drop_first() =~= frames.drop_first());
}

/// After a name is assigned, reading it gives the value assigned, both from
/// the frame the assignment started in and from the frame that holds the name.
pub proof fn law_read_after_assign<V>(frames: Seq<Map<Name, V>>, k: Name, v: V)
    requires
        find_frame(frames, k) is Some,
    ensures
        lookup(assign_spec(frames, k, v), k) == Some(v),
        lookup(
            assign_spec(frames, k, v).subrange(find_frame(frames, k)->0, frames.len() as int),
            k,
        ) == Some(v),
{
    lemma_find_frame(frames, k);
    let i = find_frame(frames, k)->0;
    let after = assign_spec(frames, k, v);
    lemma_find_frame(after, k);
    assert forall|j: int| 0 <= j < i implies !(#[trigger] after[j]).dom().contains(k) by {
        assert(after[j] == frames[j]);
    }
    if let Some(i2) = find_frame(after, k) {
        assert(i2 == i);
    }
    let tail = after.subrange(i, frames.len() as int);
    lemma_find_frame(tail, k);
    if let Some(i3) = find_frame(tail, k) {
        assert(tail[0] == after[i]);
        assert(i3 == 0);
    }
}

/// Assigning a name that no frame holds changes nothing.
pub proof fn law_assign_undefined_changes_nothing<V>(frames: Seq<Map<Name, V>>, k: Name, v: V)
    requires
        find_frame(frames, k) is None,
    ensures
        assign_spec(frames, k, v) == frames,
        lookup(frames, k) is None,
{
}

/// Defining or assigning one name leaves what every other name reads as it
/// was.
pub proof fn law_other_names_unchanged<V>(frames: Seq<Map<Name, V>>, k: Name, v: V, other: Name)
    requires
        frames.len() >= 1,
        other != k,
    ensures
        lookup(define_spec(frames, k, v), other) == lookup(frames, other),
        lookup(assign_spec(frames, k, v), other) == lookup(frames, other),
{
    lemma_find_frame(frames, k);
    lemma_unchanged_lookup(frames, define_spec(frames, k, v), other);
    lemma_unchanged_lookup(frames, assign_spec(frames, k, v), other);
}

proof fn lemma_unchanged_lookup<V>(a: Seq<Map<Name, V>>, b: Seq<Map<Name, V>>, k: Name)
    requires
        a.len() == b.len(),
        forall|i: int| 0 <= i < a.len() ==> (#[trigger] a[i]).dom().contains(k) == b[i].dom().contains(k)
            && (a[i].dom().contains(k) ==> a[i][k] == b[i][k]),
    ensures
        lookup(a, k) == lookup(b, k),
        find_frame(a, k) == find_frame(b, k),
    decreases a.len(),
{
    if a.len() > 0 && !a[0].dom().contains(k) {
        assert(b[0] == b[0]);
        assert forall|i: int| 0 <= i < a.drop_first().len() implies (#[trigger] a.drop_first()[i]).dom().contains(k)
            == b.drop_first()[i].dom().contains(k) && (a.drop_first()[i].dom().contains(k)
            ==> a.drop_first()[i][k] == b.drop_first()[i][k]) by {
            assert(a.drop_first()[i] == a[i + 1]);
            assert(b.drop_first()[i] == b[i + 1]);
        }
        lemma_unchanged_lookup(a.drop_first(), b.drop_first(), k);
        lemma_find_frame(a, k);
        lemma_find_frame(b, k);
    }
}

} // verus!
