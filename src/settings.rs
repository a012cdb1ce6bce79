//! Signing settings, global and per scope, and how they are derived when a
//! signing operation descends into a slice, a bundle binary or a nested bundle.
use crate::digest::DigestType;
use crate::flags::{CodeSignatureFlags, ExecutableSegmentFlags};
use crate::scope::{CpuType, ScopeKey, SettingsScope};
use crate::text::{chars_of, string_of};
use vstd::prelude::*;

verus! {

/// A value that a setting can hold, with a mathematical model.
pub trait SettingValue: Sized {
    type Model;

    spec fn model(&self) -> Self::Model;

    /// A copy with the same model.
    fn duplicate(&self) -> (r: Self)
        ensures
            r.model() == self.model(),
    ;
}

impl SettingValue for String {
    type Model = Seq<char>;

    open spec fn model(&self) -> Seq<char> {
        self@
    }

    fn duplicate(&self) -> (r: String) {
        self.clone()
    }
}

impl SettingValue for Vec<u8> {
    type Model = Seq<u8>;

    open spec fn model(&self) -> Seq<u8> {
        self@
    }

    fn duplicate(&self) -> (r: Vec<u8>) {
        let mut r: Vec<u8> = Vec::new();
        r.extend_from_slice(self.as_slice());
        assert(r@ =~= self@);
        r
    }
}

impl SettingValue for Vec<Vec<u8>> {
    type Model = Seq<Seq<u8>>;

    open spec fn model(&self) -> Seq<Seq<u8>> {
        Seq::new(self@.len(), |i: int| self@[i]@)
    }

    fn duplicate(&self) -> (r: Vec<Vec<u8>>) {
        let mut r: Vec<Vec<u8>> = Vec::new();
        let mut i: usize = 0;
        while i < self.len()
            invariant
                i <= self.len(),
                r@.len() == i,
                forall|j: int| 0 <= j < i ==> #[trigger] r@[j]@ == self@[j]@,
            decreases self.len() - i,
        {
            r.push(self[i].duplicate());
            i = i + 1;
        }
        assert(r.model() =~= self.model());
        r
    }
}

impl SettingValue for u32 {
    type Model = u32;

    open spec fn model(&self) -> u32 {
        *self
    }

    fn duplicate(&self) -> (r: u32) {
        *self
    }
}

impl SettingValue for u64 {
    type Model = u64;

    open spec fn model(&self) -> u64 {
        *self
    }

    fn duplicate(&self) -> (r: u64) {
        *self
    }
}

/// The value that the last entry for `k` carries.
pub open spec fn lookup_in<T: SettingValue>(s: Seq<(SettingsScope, T)>, k: ScopeKey) -> Option<
    T::Model,
>
    decreases s.len(),
{
    if s.len() == 0 {
        None
    } else if s.last().0@ == k {
        Some(s.last().1.model())
    } else {
        lookup_in(s.drop_last(), k)
    }
}

proof fn lemma_lookup_update<T: SettingValue>(s: Seq<(SettingsScope, T)>, j: int, e: (SettingsScope, T))
    requires
        0 <= j < s.len(),
        s[j].0@ == e.0@,
        forall|i: int| j < i < s.len() ==> (#[trigger] s[i]).0@ != e.0@,
    ensures
        forall|k: ScopeKey|
            #[trigger] lookup_in(s.update(j, e), k) == if k == e.0@ {
                Some(e.1.model())
            } else {
                lookup_in(s, k)
            },
    decreases s.len(),
{
    let u = s.update(j, e);
    if j == s.len() - 1 {
        assert(u.drop_last() =~= s.drop_last());
        assert(u.last() == e);
    } else {
        lemma_lookup_update(s.drop_last(), j, e);
        assert(u.drop_last() =~= s.drop_last().update(j, e));
        assert(u.last() == s.last());
    }
    assert forall|k: ScopeKey|
        #[trigger] lookup_in(u, k) == if k == e.0@ {
            Some(e.1.model())
        } else {
            lookup_in(s, k)
        } by {
        if j < s.len() - 1 {
            assert(lookup_in(s.drop_last().update(j, e), k) == if k == e.0@ {
                Some(e.1.model())
            } else {
                lookup_in(s.drop_last(), k)
            });
        }
    }
}

/// Values of one setting, keyed by scope.
pub struct ScopedValues<T> {
    entries: Vec<(SettingsScope, T)>,
}

impl<T: SettingValue> View for ScopedValues<T> {
    type V = Map<ScopeKey, T::Model>;

    closed spec fn view(&self) -> Map<ScopeKey, T::Model> {
        Map::new(
            |k: ScopeKey| lookup_in(self.entries@, k) is Some,
            |k: ScopeKey| lookup_in(self.entries@, k)->0,
        )
    }
}

impl<T: SettingValue> ScopedValues<T> {
    /// No values.
    pub fn new() -> (r: ScopedValues<T>)
        ensures
            r@ == Map::<ScopeKey, T::Model>::empty(),
    {
        let r = ScopedValues { entries: Vec::new() };
        assert(r@ =~= Map::<ScopeKey, T::Model>::empty());
        r
    }

    /// The number of scopes that hold a value.
    pub fn len(&self) -> usize {
        self.entries.len()
    }

    fn find(&self, key: &SettingsScope) -> (r: Option<usize>)
        ensures
            match r {
                Some(j) => j < self.entries@.len() && self.entries@[j as int].0@ == key@
                    && forall|i: int|
                    j < i < self.entries@.len() ==> (#[trigger] self.entries@[i]).0@ != key@,
                None => lookup_in(self.entries@, key@) is None,
            },
            r is Some ==> lookup_in(self.entries@, key@) == Some(
                self.entries@[r->0 as int].1.model(),
            ),
    {
        let mut i: usize = self.entries.len();
        assert(self.entries@.subrange(0, i as int) =~= self.entries@);
        while i > 0
            invariant
                i <= self.entries@.len(),
                forall|j: int| i <= j < self.entries@.len() ==> (#[trigger] self.entries@[j]).0@ != key@,
                lookup_in(self.entries@, key@) == lookup_in(self.entries@.subrange(0, i as int), key@),
            decreases i,
        {
            let ghost pre = self.entries@.subrange(0, i as int);
            if self.entries[i - 1].0.same_as(key) {
                return Some(i - 1);
            }
            assert(pre.drop_last() =~= self.entries@.subrange(0, i - 1));
            i = i - 1;
        }
        None
    }

    /// The value for a scope.
    pub fn get(&self, key: &SettingsScope) -> (r: Option<&T>)
        ensures
            r is Some == self@.contains_key(key@),
            r is Some ==> r->0.model() == self@[key@],
    {
        match self.find(key) {
            Some(j) => Some(&self.entries[j].1),
            None => None,
        }
    }

    /// Whether a scope holds a value.
    pub fn contains(&self, key: &SettingsScope) -> (r: bool)
        ensures
            r == self@.contains_key(key@),
    {
        self.find(key).is_some()
    }

    /// Sets the value for a scope, replacing any earlier one.
    pub fn insert(&mut self, key: SettingsScope, value: T)
        ensures
            final(self)@ == old(self)@.insert(key@, value.model()),
    {
        let ghost k = key@;
        let ghost m = value.model();
        match self.find(&key) {
            Some(j) => {
                let ghost before = self.entries@;
                self.entries.set(j, (key, value));
                proof {
                    lemma_lookup_update(before, j as int, self.entries@[j as int]);
                    assert(self.entries@ == before.update(j as int, self.entries@[j as int]));
                }
            },
            None => {
                let ghost before = self.entries@;
                self.entries.push((key, value));
                assert(self.entries@.drop_last() =~= before);
            },
        }
        assert(final(self)@ =~= old(self)@.insert(k, m));
    }
}


/// How scopes map when descending: into the slice of a fat binary at
/// `index` with CPU type `cpu`, or into the entity at `main_path`, whose own
/// descendants' paths start with `prefix`.
pub enum Descent {
    Slice { index: usize, cpu: CpuType },
    Strip { main_path: String, prefix: String },
}

/// The mathematical value of a [Descent].
pub enum DescentKey {
    Slice(usize, u32),
    Strip(Seq<char>, Seq<char>),
}

impl View for Descent {
    type V = DescentKey;

    open spec fn view(&self) -> DescentKey {
        match self {
            Descent::Slice { index, cpu } => DescentKey::Slice(*index, *cpu),
            Descent::Strip { main_path, prefix } => DescentKey::Strip(main_path@, prefix@),
        }
    }
}

pub open spec fn starts_with(p: Seq<char>, prefix: Seq<char>) -> bool {
    prefix.len() <= p.len() && p.subrange(0, prefix.len() as int) == prefix
}

/// The path that `p` becomes below `main` when its descendants start with
/// `prefix`: `None` for `main` itself and for paths outside it.
pub open spec fn stripped(p: Seq<char>, main: Seq<char>, prefix: Seq<char>) -> Option<Seq<char>> {
    if p != main && starts_with(p, prefix) {
        Some(p.subrange(prefix.len() as int, p.len() as int))
    } else {
        None
    }
}

/// The scope that a setting under `k` moves to when descending; `None` where
/// it is dropped.
pub open spec fn target_of(d: DescentKey, k: ScopeKey) -> Option<ScopeKey> {
    match d {
        DescentKey::Slice(index, cpu) => match k {
            ScopeKey::Main => Some(ScopeKey::Main),
            ScopeKey::MultiArchIndex(i) => if i == index {
                Some(ScopeKey::Main)
            } else {
                None
            },
            ScopeKey::MultiArchCpuType(c) => if c == cpu {
                Some(ScopeKey::Main)
            } else {
                None
            },
            _ => None,
        },
        DescentKey::Strip(main, prefix) => match k {
            ScopeKey::Main => Some(ScopeKey::Main),
            ScopeKey::MultiArchIndex(i) => Some(ScopeKey::MultiArchIndex(i)),
            ScopeKey::MultiArchCpuType(c) => Some(ScopeKey::MultiArchCpuType(c)),
            ScopeKey::Path(p) => if p == main {
                Some(ScopeKey::Main)
            } else {
                match stripped(p, main, prefix) {
                    Some(q) => Some(ScopeKey::Path(q)),
                    None => None,
                }
            },
            ScopeKey::PathMultiArchIndex(p, i) => if p == main {
                Some(ScopeKey::MultiArchIndex(i))
            } else {
                match stripped(p, main, prefix) {
                    Some(q) => Some(ScopeKey::PathMultiArchIndex(q, i)),
                    None => None,
                }
            },
            ScopeKey::PathMultiArchCpuType(p, c) => if p == main {
                Some(ScopeKey::MultiArchCpuType(c))
            } else {
                match stripped(p, main, prefix) {
                    Some(q) => Some(ScopeKey::PathMultiArchCpuType(q, c)),
                    None => None,
                }
            },
        },
    }
}

/// The first of `a`, `b` that `m` holds a value for.
pub open spec fn first_held<M>(m: Map<ScopeKey, M>, a: ScopeKey, b: ScopeKey) -> Option<ScopeKey> {
    if m.contains_key(a) {
        Some(a)
    } else if m.contains_key(b) {
        Some(b)
    } else {
        None
    }
}

pub open spec fn held<M>(m: Map<ScopeKey, M>, a: ScopeKey) -> Option<ScopeKey> {
    if m.contains_key(a) {
        Some(a)
    } else {
        None
    }
}

/// The scope whose value the derived settings hold under `t`: of the scopes
/// that move to `t`, the most granular one that holds a value.
pub open spec fn source_of<M>(d: DescentKey, m: Map<ScopeKey, M>, t: ScopeKey) -> Option<ScopeKey> {
    match d {
        DescentKey::Slice(index, cpu) => match t {
            ScopeKey::Main => if m.contains_key(ScopeKey::MultiArchCpuType(cpu)) {
                Some(ScopeKey::MultiArchCpuType(cpu))
            } else {
                first_held(m, ScopeKey::MultiArchIndex(index), ScopeKey::Main)
            },
            _ => None,
        },
        DescentKey::Strip(main, prefix) => match t {
            ScopeKey::Main => first_held(m, ScopeKey::Path(main), ScopeKey::Main),
            ScopeKey::MultiArchIndex(i) => first_held(
                m,
                ScopeKey::PathMultiArchIndex(main, i),
                ScopeKey::MultiArchIndex(i),
            ),
            ScopeKey::MultiArchCpuType(c) => first_held(
                m,
                ScopeKey::PathMultiArchCpuType(main, c),
                ScopeKey::MultiArchCpuType(c),
            ),
            ScopeKey::Path(q) => if prefix + q != main {
                held(m, ScopeKey::Path(prefix + q))
            } else {
                None
            },
            ScopeKey::PathMultiArchIndex(q, i) => if prefix + q != main {
                held(m, ScopeKey::PathMultiArchIndex(prefix + q, i))
            } else {
                None
            },
            ScopeKey::PathMultiArchCpuType(q, c) => if prefix + q != main {
                held(m, ScopeKey::PathMultiArchCpuType(prefix + q, c))
            } else {
                None
            },
        },
    }
}

/// The values of a setting after descending.
pub open spec fn derived<M>(d: DescentKey, m: Map<ScopeKey, M>) -> Map<ScopeKey, M> {
    Map::new(|t: ScopeKey| source_of(d, m, t) is Some, |t: ScopeKey| m[source_of(d, m, t)->0])
}

proof fn lemma_source_moves_to_target<M>(d: DescentKey, m: Map<ScopeKey, M>, t: ScopeKey)
    requires
        source_of(d, m, t) is Some,
    ensures
        target_of(d, source_of(d, m, t)->0) == Some(t),
        m.contains_key(source_of(d, m, t)->0),
{
    match d {
        DescentKey::Strip(main, prefix) => match t {
            ScopeKey::Path(q) => {
                assert((prefix + q).subrange(0, prefix.len() as int) =~= prefix);
                assert((prefix + q).subrange(prefix.len() as int, (prefix + q).len() as int) =~= q);
            },
            ScopeKey::PathMultiArchIndex(q, _) => {
                assert((prefix + q).subrange(0, prefix.len() as int) =~= prefix);
                assert((prefix + q).subrange(prefix.len() as int, (prefix + q).len() as int) =~= q);
            },
            ScopeKey::PathMultiArchCpuType(q, _) => {
                assert((prefix + q).subrange(0, prefix.len() as int) =~= prefix);
                assert((prefix + q).subrange(prefix.len() as int, (prefix + q).len() as int) =~= q);
            },
            _ => {},
        },
        _ => {},
    }
}

/// What follows `prefix` in `p`, if `p` starts with it.
fn strip_chars(p: &String, prefix: &String) -> (r: Option<String>)
    ensures
        r is Some == starts_with(p@, prefix@),
        r is Some ==> r->0@ == p@.subrange(prefix@.len() as int, p@.len() as int),
{
    let pc = chars_of(p.as_str());
    let fc = chars_of(prefix.as_str());
    assert(pc@ == p@ && fc@ == prefix@);
    if fc.len() > pc.len() {
        return None;
    }
    let mut i: usize = 0;
    while i < fc.len()
        invariant
            fc.len() <= pc.len(),
            pc@ == p@,
            fc@ == prefix@,
            i <= fc.len(),
            forall|j: int| 0 <= j < i ==> pc@[j] == #[trigger] fc@[j],
        decreases fc.len() - i,
    {
        if pc[i] != fc[i] {
            assert(pc@.subrange(0, fc@.len() as int)[i as int] != fc@[i as int]);
            assert(pc@.subrange(0, fc@.len() as int) != fc@);
            return None;
        }
        i = i + 1;
    }
    assert(pc@.subrange(0, fc@.len() as int) =~= fc@);
    Some(string_of(&pc.as_slice()[fc.len()..pc.len()]))
}

fn concat_strings(a: &String, b: &String) -> (r: String)
    ensures
        r@ == a@ + b@,
{
    let mut c = chars_of(a.as_str());
    let mut d = chars_of(b.as_str());
    c.append(&mut d);
    string_of(c.as_slice())
}

impl Descent {
    /// The path that `p` becomes below the main path, if it is a proper
    /// descendant.
    fn strip_path(main_path: &String, prefix: &String, p: &String) -> (r: Option<String>)
        ensures
            r is Some == stripped(p@, main_path@, prefix@) is Some,
            r is Some ==> r->0@ == stripped(p@, main_path@, prefix@)->0,
    {
        if p.eq(main_path) {
            None
        } else {
            strip_chars(p, prefix)
        }
    }

    /// The scope that a setting under `k` moves to.
    pub fn target(&self, k: &SettingsScope) -> (r: Option<SettingsScope>)
        ensures
            r is Some == target_of(self@, k@) is Some,
            r is Some ==> r->0@ == target_of(self@, k@)->0,
    {
        match self {
            Descent::Slice { index, cpu } => match k {
                SettingsScope::Main => Some(SettingsScope::Main),
                SettingsScope::MultiArchIndex(i) => if *i == *index {
                    Some(SettingsScope::Main)
                } else {
                    None
                },
                SettingsScope::MultiArchCpuType(c) => if *c == *cpu {
                    Some(SettingsScope::Main)
                } else {
                    None
                },
                _ => None,
            },
            Descent::Strip { main_path, prefix } => match k {
                SettingsScope::Main => Some(SettingsScope::Main),
                SettingsScope::MultiArchIndex(i) => Some(SettingsScope::MultiArchIndex(*i)),
                SettingsScope::MultiArchCpuType(c) => Some(SettingsScope::MultiArchCpuType(*c)),
                SettingsScope::Path(p) => if p.eq(main_path) {
                    Some(SettingsScope::Main)
                } else {
                    match Self::strip_path(main_path, prefix, p) {
                        Some(q) => Some(SettingsScope::Path(q)),
                        None => None,
                    }
                },
                SettingsScope::PathMultiArchIndex(p, i) => if p.eq(main_path) {
                    Some(SettingsScope::MultiArchIndex(*i))
                } else {
                    match Self::strip_path(main_path, prefix, p) {
                        Some(q) => Some(SettingsScope::PathMultiArchIndex(q, *i)),
                        None => None,
                    }
                },
                SettingsScope::PathMultiArchCpuType(p, c) => if p.eq(main_path) {
                    Some(SettingsScope::MultiArchCpuType(*c))
                } else {
                    match Self::strip_path(main_path, prefix, p) {
                        Some(q) => Some(SettingsScope::PathMultiArchCpuType(q, *c)),
                        None => None,
                    }
                },
            },
        }
    }

    /// The scope whose value the derived settings hold under `t`.
    pub fn source<T: SettingValue>(&self, m: &ScopedValues<T>, t: &SettingsScope) -> (r: Option<
        SettingsScope,
    >)
        ensures
            r is Some == source_of(self@, m@, t@) is Some,
            r is Some ==> r->0@ == source_of(self@, m@, t@)->0,
    {
        let (first, second) = match self {
            Descent::Slice { index, cpu } => match t {
                SettingsScope::Main => {
                    let c = SettingsScope::MultiArchCpuType(*cpu);
                    if m.contains(&c) {
                        return Some(c);
                    }
                    (SettingsScope::MultiArchIndex(*index), Some(SettingsScope::Main))
                },
                _ => return None,
            },
            Descent::Strip { main_path, prefix } => match t {
                SettingsScope::Main => (
                    SettingsScope::Path(main_path.clone()),
                    Some(SettingsScope::Main),
                ),
                SettingsScope::MultiArchIndex(i) => (
                    SettingsScope::PathMultiArchIndex(main_path.clone(), *i),
                    Some(SettingsScope::MultiArchIndex(*i)),
                ),
                SettingsScope::MultiArchCpuType(c) => (
                    SettingsScope::PathMultiArchCpuType(main_path.clone(), *c),
                    Some(SettingsScope::MultiArchCpuType(*c)),
                ),
                SettingsScope::Path(q) => {
                    let p = concat_strings(prefix, q);
                    if p.eq(main_path) {
                        return None;
                    }
                    (SettingsScope::Path(p), None)
                },
                SettingsScope::PathMultiArchIndex(q, i) => {
                    let p = concat_strings(prefix, q);
                    if p.eq(main_path) {
                        return None;
                    }
                    (SettingsScope::PathMultiArchIndex(p, *i), None)
                },
                SettingsScope::PathMultiArchCpuType(q, c) => {
                    let p = concat_strings(prefix, q);
                    if p.eq(main_path) {
                        return None;
                    }
                    (SettingsScope::PathMultiArchCpuType(p, *c), None)
                },
            },
        };
        if m.contains(&first) {
            Some(first)
        } else {
            match second {
                Some(s) => if m.contains(&s) {
                    Some(s)
                } else {
                    None
                },
                None => None,
            }
        }
    }
}

/// The part of `derived(d, m)` whose sources occur among `done`.
pub open spec fn derived_from<T: SettingValue>(
    d: DescentKey,
    m: Map<ScopeKey, T::Model>,
    done: Seq<(SettingsScope, T)>,
) -> Map<ScopeKey, T::Model> {
    Map::new(
        |t: ScopeKey|
            source_of(d, m, t) is Some && lookup_in(done, source_of(d, m, t)->0) is Some,
        |t: ScopeKey| lookup_in(done, source_of(d, m, t)->0)->0,
    )
}

/// The values of a setting after descending.
pub fn derive_values<T: SettingValue>(m: &ScopedValues<T>, d: &Descent) -> (r: ScopedValues<T>)
    ensures
        r@ == derived(d@, m@),
{
    let mut out: ScopedValues<T> = ScopedValues { entries: Vec::new() };
    let mut i: usize = 0;
    assert(out@ =~= derived_from(d@, m@, m.entries@.subrange(0, 0)));
    while i < m.entries.len()
        invariant
            i <= m.entries@.len(),
            out@ == derived_from(d@, m@, m.entries@.subrange(0, i as int)),
        decreases m.entries.len() - i,
    {
        let ghost done = m.entries@.subrange(0, i as int);
        let ghost next = m.entries@.subrange(0, i + 1);
        assert(next.drop_last() =~= done);
        let k = &m.entries[i].0;
        let ghost kv = k@;
        assert(next.last().0@ == kv);
        let mut won = false;
        if let Some(t) = d.target(k) {
            if let Some(s) = d.source(m, &t) {
                if s.same_as(k) {
                    let ghost tv = t@;
                    let ghost old_out = out@;
                    out.insert(t, m.entries[i].1.duplicate());
                    won = true;
                    proof {
                        assert forall|t2: ScopeKey|
                            #![trigger out@.contains_key(t2)]
                            #![trigger derived_from(d@, m@, next).contains_key(t2)]
                            derived_from(d@, m@, next).contains_key(t2) == out@.contains_key(t2)
                                && (out@.contains_key(t2) ==> derived_from(d@, m@, next)[t2]
                                == out@[t2]) by {
                            if t2 != tv {
                                if source_of(d@, m@, t2) == Some(kv) {
                                    lemma_source_moves_to_target(d@, m@, t2);
                                }
                            }
                        }
                        assert(out@ =~= derived_from(d@, m@, next));
                    }
                }
            }
        }
        proof {
            if !won {
                assert forall|t2: ScopeKey|
                    #![trigger out@.contains_key(t2)]
                    #![trigger derived_from(d@, m@, next).contains_key(t2)]
                    derived_from(d@, m@, next).contains_key(t2) == out@.contains_key(t2) && (
                    out@.contains_key(t2) ==> derived_from(d@, m@, next)[t2] == out@[t2]) by {
                    if source_of(d@, m@, t2) == Some(kv) {
                        lemma_source_moves_to_target(d@, m@, t2);
                    }
                }
                assert(out@ =~= derived_from(d@, m@, next));
            }
        }
        i = i + 1;
    }
    assert(m.entries@.subrange(0, i as int) =~= m.entries@);
    assert(out@ =~= derived(d@, m@));
    out
}


/// The expression of a serialized requirement blob in expression form.
pub open spec fn requirement_expression(b: Seq<u8>) -> Option<Seq<u8>> {
    if b.len() >= 12 && crate::endian::read_be32(b, 0) == crate::blob::CSMAGIC_REQUIREMENT
        && crate::endian::read_be32(b, 4) as nat == b.len() && crate::endian::read_be32(b, 8) == 1 {
        Some(b.subrange(12, b.len() as int))
    } else {
        None
    }
}

/// Settings of one signing operation.
///
/// Some settings are global; the others hold a value per [SettingsScope].
/// Descending into a slice, a bundle binary or a nested bundle derives new
/// settings; the parent is never changed.
pub struct SigningSettings {
    time_stamp_url: Option<String>,
    team_name: Option<String>,
    digest_type: DigestType,
    identifiers: ScopedValues<String>,
    entitlements: ScopedValues<String>,
    designated_requirement: ScopedValues<Vec<Vec<u8>>>,
    code_signature_flags: ScopedValues<u32>,
    executable_segment_flags: ScopedValues<u64>,
    info_plist_data: ScopedValues<Vec<u8>>,
    code_resources_data: ScopedValues<Vec<u8>>,
}

/// One setting of [SigningSettings].
pub enum SettingField {
    TimeStampUrl,
    TeamName,
    DigestKind,
    Identifiers,
    Entitlements,
    DesignatedRequirement,
    CodeSignatureFlags,
    ExecutableSegmentFlags,
    InfoPlistData,
    CodeResourcesData,
}

/// Relies on `url::Url::parse` (re-exported by reqwest): whether the text
/// is an absolute URL. The answer depends on the text alone.
pub uninterp spec fn url_parses(s: Seq<char>) -> bool;

/// Relies on `url::Url::parse`: whether `s` parses as a URL.
#[verifier::external_body]
fn parse_url(s: &str) -> (r: bool)
    ensures
        r == url_parses(s@),
{
    reqwest::Url::parse(s).is_ok()
}

fn copy_opt_string(s: &Option<String>) -> (r: Option<String>)
    ensures
        r is Some == s is Some,
        r is Some ==> r->0@ == s->0@,
{
    match s {
        Some(v) => Some(v.clone()),
        None => None,
    }
}

impl SigningSettings {
    pub closed spec fn spec_time_stamp_url(&self) -> Option<Seq<char>> {
        match self.time_stamp_url {
            Some(u) => Some(u@),
            None => None,
        }
    }

    pub closed spec fn spec_team_name(&self) -> Option<Seq<char>> {
        match self.team_name {
            Some(u) => Some(u@),
            None => None,
        }
    }

    pub closed spec fn spec_digest_type(&self) -> DigestType {
        self.digest_type
    }

    pub closed spec fn spec_identifiers(&self) -> Map<ScopeKey, Seq<char>> {
        self.identifiers@
    }

    pub closed spec fn spec_entitlements(&self) -> Map<ScopeKey, Seq<char>> {
        self.entitlements@
    }

    pub closed spec fn spec_designated_requirement(&self) -> Map<ScopeKey, Seq<Seq<u8>>> {
        self.designated_requirement@
    }

    pub closed spec fn spec_code_signature_flags(&self) -> Map<ScopeKey, u32> {
        self.code_signature_flags@
    }

    pub closed spec fn spec_executable_segment_flags(&self) -> Map<ScopeKey, u64> {
        self.executable_segment_flags@
    }

    pub closed spec fn spec_info_plist_data(&self) -> Map<ScopeKey, Seq<u8>> {
        self.info_plist_data@
    }

    pub closed spec fn spec_code_resources_data(&self) -> Map<ScopeKey, Seq<u8>> {
        self.code_resources_data@
    }

    /// `o` holds the same settings as `self`, but perhaps for `f`.
    pub open spec fn same_except(&self, o: &SigningSettings, f: SettingField) -> bool {
        &&& (f !is TimeStampUrl ==> o.spec_time_stamp_url() == self.spec_time_stamp_url())
        &&& (f !is TeamName ==> o.spec_team_name() == self.spec_team_name())
        &&& (f !is DigestKind ==> o.spec_digest_type() == self.spec_digest_type())
        &&& (f !is Identifiers ==> o.spec_identifiers() == self.spec_identifiers())
        &&& (f !is Entitlements ==> o.spec_entitlements() == self.spec_entitlements())
        &&& (f !is DesignatedRequirement ==> o.spec_designated_requirement()
            == self.spec_designated_requirement())
        &&& (f !is CodeSignatureFlags ==> o.spec_code_signature_flags()
            == self.spec_code_signature_flags())
        &&& (f !is ExecutableSegmentFlags ==> o.spec_executable_segment_flags()
            == self.spec_executable_segment_flags())
        &&& (f !is InfoPlistData ==> o.spec_info_plist_data() == self.spec_info_plist_data())
        &&& (f !is CodeResourcesData ==> o.spec_code_resources_data()
            == self.spec_code_resources_data())
    }

    /// Every scoped setting of `r` is the derivation of that of `self`, and
    /// the global settings are the same.
    pub open spec fn descends_from(&self, r: &SigningSettings, d: DescentKey) -> bool {
        &&& r.spec_time_stamp_url() == self.spec_time_stamp_url()
        &&& r.spec_team_name() == self.spec_team_name()
        &&& r.spec_digest_type() == self.spec_digest_type()
        &&& r.spec_identifiers() == derived(d, self.spec_identifiers())
        &&& r.spec_entitlements() == derived(d, self.spec_entitlements())
        &&& r.spec_designated_requirement() == derived(d, self.spec_designated_requirement())
        &&& r.spec_code_signature_flags() == derived(d, self.spec_code_signature_flags())
        &&& r.spec_executable_segment_flags() == derived(
            d,
            self.spec_executable_segment_flags(),
        )
        &&& r.spec_info_plist_data() == derived(d, self.spec_info_plist_data())
        &&& r.spec_code_resources_data() == derived(d, self.spec_code_resources_data())
    }

    /// Settings with nothing scoped, no team, no time-stamp server, and
    /// SHA-256 digests.
    pub fn new() -> (r: SigningSettings)
        ensures
            r.spec_time_stamp_url() is None,
            r.spec_team_name() is None,
            r.spec_digest_type() == DigestType::Sha256,
            r.spec_identifiers() == Map::<ScopeKey, Seq<char>>::empty(),
            r.spec_entitlements() == Map::<ScopeKey, Seq<char>>::empty(),
            r.spec_designated_requirement() == Map::<ScopeKey, Seq<Seq<u8>>>::empty(),
            r.spec_code_signature_flags() == Map::<ScopeKey, u32>::empty(),
            r.spec_executable_segment_flags() == Map::<ScopeKey, u64>::empty(),
            r.spec_info_plist_data() == Map::<ScopeKey, Seq<u8>>::empty(),
            r.spec_code_resources_data() == Map::<ScopeKey, Seq<u8>>::empty(),
    {
        SigningSettings {
            time_stamp_url: None,
            team_name: None,
            digest_type: DigestType::Sha256,
            identifiers: ScopedValues::new(),
            entitlements: ScopedValues::new(),
            designated_requirement: ScopedValues::new(),
            code_signature_flags: ScopedValues::new(),
            executable_segment_flags: ScopedValues::new(),
            info_plist_data: ScopedValues::new(),
            code_resources_data: ScopedValues::new(),
        }
    }

    fn derive(&self, d: &Descent) -> (r: SigningSettings)
        ensures
            self.descends_from(&r, d@),
    {
        SigningSettings {
            time_stamp_url: copy_opt_string(&self.time_stamp_url),
            team_name: copy_opt_string(&self.team_name),
            digest_type: self.digest_type,
            identifiers: derive_values(&self.identifiers, d),
            entitlements: derive_values(&self.entitlements, d),
            designated_requirement: derive_values(&self.designated_requirement, d),
            code_signature_flags: derive_values(&self.code_signature_flags, d),
            executable_segment_flags: derive_values(&self.executable_segment_flags, d),
            info_plist_data: derive_values(&self.info_plist_data, d),
            code_resources_data: derive_values(&self.code_resources_data, d),
        }
    }

    /// Settings for the slice at `index`, of CPU type `cpu_type`, of a fat
    /// binary: the main, index and CPU type entries fold into the main scope,
    /// the CPU type entry taking precedence over the index entry, which takes
    /// precedence over the main entry.
    pub fn as_nested_macho_settings(&self, index: usize, cpu_type: CpuType) -> (r: SigningSettings)
        ensures
            self.descends_from(&r, DescentKey::Slice(index, cpu_type)),
    {
        self.derive(&Descent::Slice { index, cpu: cpu_type })
    }

    /// Settings for the binary at `path` within a bundle: its path entries
    /// become main entries, and paths below it lose the `path` prefix.
    pub fn as_bundle_macho_settings(&self, path: &str) -> (r: SigningSettings)
        ensures
            self.descends_from(&r, DescentKey::Strip(path@, path@)),
    {
        let main_path = path.to_owned();
        let prefix = path.to_owned();
        self.derive(&Descent::Strip { main_path, prefix })
    }

    /// Settings for the nested bundle at `bundle_path`: its path entries
    /// become main entries, and paths below it lose the `bundle_path/`
    /// prefix.
    pub fn as_nested_bundle_settings(&self, bundle_path: &str) -> (r: SigningSettings)
        ensures
            self.descends_from(&r, DescentKey::Strip(bundle_path@, bundle_path@.push('/'))),
    {
        let main_path = bundle_path.to_owned();
        let mut chars = chars_of(bundle_path);
        chars.push('/');
        let prefix = string_of(chars.as_slice());
        self.derive(&Descent::Strip { main_path, prefix })
    }

    /// The digest algorithm.
    pub fn digest_type(&self) -> (r: DigestType)
        ensures
            r == self.spec_digest_type(),
    {
        self.digest_type
    }

    /// Sets the digest algorithm.
    pub fn set_digest_type(&mut self, digest_type: DigestType)
        ensures
            old(self).same_except(final(self), SettingField::DigestKind),
            final(self).spec_digest_type() == digest_type,
            final(self).spec_team_name() == old(self).spec_team_name(),
            final(self).spec_time_stamp_url() == old(self).spec_time_stamp_url(),
    {
        self.digest_type = digest_type;
    }

    /// The URL of the time-stamp server.
    pub fn time_stamp_url(&self) -> (r: Option<&String>)
        ensures
            r is Some == self.spec_time_stamp_url() is Some,
            r is Some ==> r->0@ == self.spec_time_stamp_url()->0,
    {
        match &self.time_stamp_url {
            Some(u) => Some(u),
            None => None,
        }
    }

    /// Sets the URL of the time-stamp server; a text that is no URL is
    /// refused and changes nothing.
    pub fn set_time_stamp_url(&mut self, url: &str) -> (r: Result<(), crate::error::AppleCodesignError>)
        ensures
            old(self).same_except(final(self), SettingField::TimeStampUrl),
            r is Ok == url_parses(url@),
            r is Ok ==> final(self).spec_time_stamp_url() == Some(url@),
            r is Err ==> final(self).spec_time_stamp_url() == old(self).spec_time_stamp_url(),
            final(self).spec_team_name() == old(self).spec_team_name(),
            final(self).spec_digest_type() == old(self).spec_digest_type(),
    {
        if parse_url(url) {
            self.time_stamp_url = Some(url.to_owned());
            Ok(())
        } else {
            Err(crate::error::AppleCodesignError::BadUrl(url.to_owned()))
        }
    }

    /// The team name.
    pub fn team_name(&self) -> (r: Option<&String>)
        ensures
            r is Some == self.spec_team_name() is Some,
            r is Some ==> r->0@ == self.spec_team_name()->0,
    {
        match &self.team_name {
            Some(u) => Some(u),
            None => None,
        }
    }

    /// Sets the team name.
    pub fn set_team_name(&mut self, value: &str)
        ensures
            old(self).same_except(final(self), SettingField::TeamName),
            final(self).spec_team_name() == Some(value@),
            final(self).spec_time_stamp_url() == old(self).spec_time_stamp_url(),
            final(self).spec_digest_type() == old(self).spec_digest_type(),
    {
        self.team_name = Some(value.to_owned());
    }

    /// The binary identifier for a scope.
    pub fn binary_identifier(&self, scope: &SettingsScope) -> (r: Option<&String>)
        ensures
            r is Some == self.spec_identifiers().contains_key(scope@),
            r is Some ==> r->0@ == self.spec_identifiers()[scope@],
    {
        self.identifiers.get(scope)
    }

    /// Sets the binary identifier for a scope.
    pub fn set_binary_identifier(&mut self, scope: SettingsScope, value: &str)
        ensures
            old(self).same_except(final(self), SettingField::Identifiers),
            final(self).spec_identifiers() == old(self).spec_identifiers().insert(scope@, value@),
    {
        self.identifiers.insert(scope, value.to_owned());
    }

    /// The entitlements XML for a scope.
    pub fn entitlements_xml(&self, scope: &SettingsScope) -> (r: Option<&String>)
        ensures
            r is Some == self.spec_entitlements().contains_key(scope@),
            r is Some ==> r->0@ == self.spec_entitlements()[scope@],
    {
        self.entitlements.get(scope)
    }

    /// Sets the entitlements XML for a scope; the text is not validated.
    pub fn set_entitlements_xml(&mut self, scope: SettingsScope, value: &str)
        ensures
            old(self).same_except(final(self), SettingField::Entitlements),
            final(self).spec_entitlements() == old(self).spec_entitlements().insert(scope@, value@),
    {
        self.entitlements.insert(scope, value.to_owned());
    }

    /// All entitlements XML settings, by scope.
    pub fn entitlements(&self) -> (r: &ScopedValues<String>)
        ensures
            r@ == self.spec_entitlements(),
    {
        &self.entitlements
    }

    /// The serialized designated requirement expressions for a scope.
    pub fn designated_requirement(&self, scope: &SettingsScope) -> (r: Option<&Vec<Vec<u8>>>)
        ensures
            r is Some == self.spec_designated_requirement().contains_key(scope@),
            r is Some ==> r->0.model() == self.spec_designated_requirement()[scope@],
    {
        self.designated_requirement.get(scope)
    }

    /// Sets the designated requirement of a scope to one serialized
    /// requirement expression.
    pub fn set_designated_requirement_expression(&mut self, scope: SettingsScope, expr: &[u8])
        ensures
            old(self).same_except(final(self), SettingField::DesignatedRequirement),
            final(self).spec_designated_requirement() == old(
                self,
            ).spec_designated_requirement().insert(scope@, seq![expr@]),
    {
        let mut e: Vec<u8> = Vec::new();
        e.extend_from_slice(expr);
        assert(e@ =~= expr@);
        let ghost ev = e@;
        let exprs = vec![e];
        assert(exprs@[0]@ == ev);
        assert(exprs.model() =~= seq![expr@]);
        self.designated_requirement.insert(scope, exprs);
    }

    /// Sets the designated requirement of a scope from a serialized
    /// requirement blob (as `csreq -b` writes it): a requirement blob in
    /// expression form, whose expression is kept.
    pub fn set_designated_requirement_bytes(&mut self, scope: SettingsScope, data: &[u8]) -> (r:
        Result<(), crate::error::AppleCodesignError>)
        ensures
            old(self).same_except(final(self), SettingField::DesignatedRequirement),
            r is Ok == requirement_expression(data@) is Some,
            r is Err ==> r == Err::<(), _>(crate::error::AppleCodesignError::MalformedRequirement)
                && final(self).spec_designated_requirement() == old(
                self,
            ).spec_designated_requirement(),
            r is Ok ==> final(self).spec_designated_requirement() == old(
                self,
            ).spec_designated_requirement().insert(
                scope@,
                seq![requirement_expression(data@)->0],
            ),
    {
        if data.len() < 12 || crate::endian::get_be32(data, 0) != crate::blob::CSMAGIC_REQUIREMENT
            || crate::endian::get_be32(data, 4) as usize != data.len() || crate::endian::get_be32(
            data,
            8,
        ) != 1 {
            return Err(crate::error::AppleCodesignError::MalformedRequirement);
        }
        let mut expr: Vec<u8> = Vec::new();
        expr.extend_from_slice(&data[12..data.len()]);
        assert(expr@ =~= data@.subrange(12, data@.len() as int));
        let ghost ev = expr@;
        let exprs = vec![expr];
        assert(exprs@[0]@ == ev);
        assert(exprs.model() =~= seq![requirement_expression(data@)->0]);
        self.designated_requirement.insert(scope, exprs);
        Ok(())
    }

    /// The code signature flags for a scope.
    pub fn code_signature_flags(&self, scope: &SettingsScope) -> (r: Option<CodeSignatureFlags>)
        ensures
            r is Some == self.spec_code_signature_flags().contains_key(scope@),
            r is Some ==> r->0 == self.spec_code_signature_flags()[scope@],
    {
        match self.code_signature_flags.get(scope) {
            Some(f) => Some(*f),
            None => None,
        }
    }

    /// Sets the code signature flags for a scope, replacing earlier ones.
    pub fn set_code_signature_flags(&mut self, scope: SettingsScope, flags: CodeSignatureFlags)
        ensures
            old(self).same_except(final(self), SettingField::CodeSignatureFlags),
            final(self).spec_code_signature_flags() == old(self).spec_code_signature_flags().insert(
                scope@,
                flags,
            ),
    {
        self.code_signature_flags.insert(scope, flags);
    }

    /// Adds flags to those of a scope; returns the new set.
    pub fn add_code_signature_flags(&mut self, scope: SettingsScope, flags: CodeSignatureFlags) -> (r: CodeSignatureFlags)
        ensures
            old(self).same_except(final(self), SettingField::CodeSignatureFlags),
            r == (if old(self).spec_code_signature_flags().contains_key(scope@) {
                old(self).spec_code_signature_flags()[scope@]
            } else {
                0u32
            }) | flags,
            final(self).spec_code_signature_flags() == old(self).spec_code_signature_flags().insert(
                scope@,
                r,
            ),
    {
        let existing = match self.code_signature_flags.get(&scope) {
            Some(f) => *f,
            None => 0,
        };
        let new = existing | flags;
        self.code_signature_flags.insert(scope, new);
        new
    }

    /// Removes flags from those of a scope; returns the new set.
    pub fn remove_code_signature_flags(&mut self, scope: SettingsScope, flags: CodeSignatureFlags) -> (r: CodeSignatureFlags)
        ensures
            old(self).same_except(final(self), SettingField::CodeSignatureFlags),
            r == (if old(self).spec_code_signature_flags().contains_key(scope@) {
                old(self).spec_code_signature_flags()[scope@]
            } else {
                0u32
            }) & !flags,
            final(self).spec_code_signature_flags() == old(self).spec_code_signature_flags().insert(
                scope@,
                r,
            ),
    {
        let existing = match self.code_signature_flags.get(&scope) {
            Some(f) => *f,
            None => 0,
        };
        let new = existing & !flags;
        self.code_signature_flags.insert(scope, new);
        new
    }

    /// The executable segment flags for a scope.
    pub fn executable_segment_flags(&self, scope: &SettingsScope) -> (r: Option<ExecutableSegmentFlags>)
        ensures
            r is Some == self.spec_executable_segment_flags().contains_key(scope@),
            r is Some ==> r->0 == self.spec_executable_segment_flags()[scope@],
    {
        match self.executable_segment_flags.get(scope) {
            Some(f) => Some(*f),
            None => None,
        }
    }

    /// Sets the executable segment flags for a scope.
    pub fn set_executable_segment_flags(&mut self, scope: SettingsScope, flags: ExecutableSegmentFlags)
        ensures
            old(self).same_except(final(self), SettingField::ExecutableSegmentFlags),
            final(self).spec_executable_segment_flags() == old(
                self,
            ).spec_executable_segment_flags().insert(scope@, flags),
    {
        self.executable_segment_flags.insert(scope, flags);
    }

    /// The `Info.plist` content for a scope.
    pub fn info_plist_data(&self, scope: &SettingsScope) -> (r: Option<&Vec<u8>>)
        ensures
            r is Some == self.spec_info_plist_data().contains_key(scope@),
            r is Some ==> r->0@ == self.spec_info_plist_data()[scope@],
    {
        self.info_plist_data.get(scope)
    }

    /// Sets the `Info.plist` content for a scope.
    pub fn set_info_plist_data(&mut self, scope: SettingsScope, data: Vec<u8>)
        ensures
            old(self).same_except(final(self), SettingField::InfoPlistData),
            final(self).spec_info_plist_data() == old(self).spec_info_plist_data().insert(
                scope@,
                data@,
            ),
    {
        self.info_plist_data.insert(scope, data);
    }

    /// The `CodeResources` content for a scope.
    pub fn code_resources_data(&self, scope: &SettingsScope) -> (r: Option<&Vec<u8>>)
        ensures
            r is Some == self.spec_code_resources_data().contains_key(scope@),
            r is Some ==> r->0@ == self.spec_code_resources_data()[scope@],
    {
        self.code_resources_data.get(scope)
    }

    /// Sets the `CodeResources` content for a scope.
    pub fn set_code_resources_data(&mut self, scope: SettingsScope, data: Vec<u8>)
        ensures
            old(self).same_except(final(self), SettingField::CodeResourcesData),
            final(self).spec_code_resources_data() == old(self).spec_code_resources_data().insert(
                scope@,
                data@,
            ),
    {
        self.code_resources_data.insert(scope, data);
    }
}

impl Default for SigningSettings {
    fn default() -> (r: SigningSettings)
        ensures
            r.spec_digest_type() == DigestType::Sha256,
            r.spec_team_name() is None,
            r.spec_identifiers() == Map::<ScopeKey, Seq<char>>::empty(),
    {
        SigningSettings::new()
    }
}

/// Descending into a slice keeps at most a main entry, and takes it from the
/// CPU type entry if there is one, else from the index entry, else from the
/// main entry; a main entry never outlives a slice entry.
pub proof fn lemma_slice_precedence<M>(m: Map<ScopeKey, M>, index: usize, cpu: u32)
    ensures
        forall|t: ScopeKey|
            #[trigger] derived(DescentKey::Slice(index, cpu), m).contains_key(t) ==> t
                == ScopeKey::Main,
        derived(DescentKey::Slice(index, cpu), m).contains_key(ScopeKey::Main) <==> (
        m.contains_key(ScopeKey::MultiArchCpuType(cpu)) || m.contains_key(
            ScopeKey::MultiArchIndex(index),
        ) || m.contains_key(ScopeKey::Main)),
        m.contains_key(ScopeKey::MultiArchCpuType(cpu)) ==> derived(
            DescentKey::Slice(index, cpu),
            m,
        )[ScopeKey::Main] == m[ScopeKey::MultiArchCpuType(cpu)],
        !m.contains_key(ScopeKey::MultiArchCpuType(cpu)) && m.contains_key(
            ScopeKey::MultiArchIndex(index),
        ) ==> derived(DescentKey::Slice(index, cpu), m)[ScopeKey::Main]
            == m[ScopeKey::MultiArchIndex(index)],
        !m.contains_key(ScopeKey::MultiArchCpuType(cpu)) && !m.contains_key(
            ScopeKey::MultiArchIndex(index),
        ) && m.contains_key(ScopeKey::Main) ==> derived(DescentKey::Slice(index, cpu), m)[ScopeKey::Main]
            == m[ScopeKey::Main],
{
}

} // verus!
