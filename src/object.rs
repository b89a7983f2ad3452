//! Sizes per package and section.
use vstd::prelude::*;
use crate::artifact::group_views;

verus! {

pub open spec fn saturating_sum(a: u64, b: u64) -> u64 {
    if a + b > u64::MAX {
        u64::MAX
    } else {
        (a + b) as u64
    }
}

pub open spec fn keys_unique(m: Seq<(Seq<char>, u64)>) -> bool {
    forall|i: int, j: int| 0 <= i < j < m.len() ==> m[i].0 != m[j].0
}

/// The table after adding `size` under `key`, saturating at the largest `u64`.
pub open spec fn keyed_add(m: Seq<(Seq<char>, u64)>, key: Seq<char>, size: u64) -> Seq<(Seq<char>, u64)> {
    if exists|i: int| 0 <= i < m.len() && m[i].0 == key {
        let i = choose|i: int| 0 <= i < m.len() && m[i].0 == key;
        m.update(i, (key, saturating_sum(m[i].1, size)))
    } else {
        m.push((key, size))
    }
}

/// The size of each section, one entry per section name.
#[derive(Debug, Clone)]
pub struct TargetSize {
    pub inner: Vec<(String, u64)>,
}

impl TargetSize {
    pub open spec fn sizes(&self) -> Seq<(Seq<char>, u64)> {
        group_views(self.inner@)
    }

    pub fn new() -> (r: TargetSize)
        ensures
            r.sizes() == Seq::<(Seq<char>, u64)>::empty(),
    {
        let r = TargetSize { inner: Vec::new() };
        assert(r.sizes() =~= Seq::<(Seq<char>, u64)>::empty());
        r
    }

    /// Adds `size` to the section, saturating.
    pub fn add(&mut self, section_name: String, size: u64)
        requires
            keys_unique(old(self).sizes()),
        ensures
            keys_unique(final(self).sizes()),
            final(self).sizes() == keyed_add(old(self).sizes(), section_name@, size),
    {
        let ghost m = self.sizes();
        let mut i: usize = 0;
        while i < self.inner.len()
            invariant
                m == self.sizes(),
                m == old(self).sizes(),
                keys_unique(m),
                i <= m.len(),
                forall|k: int| 0 <= k < i ==> m[k].0 != section_name@,
            decreases m.len() - i,
        {
            if self.inner[i].0 == section_name {
                assert(m[i as int].0 == section_name@);
                let total = self.inner[i].1.saturating_add(size);
                self.inner.set(i, (section_name, total));
                proof {
                    let j = choose|j: int| 0 <= j < m.len() && m[j].0 == section_name@;
                    assert(j == i);
                    assert(self.sizes() =~= m.update(i as int, (section_name@, saturating_sum(m[i as int].1, size))));
                    assert(keys_unique(self.sizes()));
                }
                return;
            }
            i += 1;
        }
        self.inner.push((section_name, size));
        assert(self.sizes() =~= m.push((section_name@, size)));
    }
}

/// The section sizes of one package.
#[derive(Debug, Clone)]
pub struct Target {
    pub package: String,
    pub size: TargetSize,
}

impl Target {
    pub fn new(package: String) -> (r: Target)
        ensures
            r.package@ == package@,
            r.size.sizes() == Seq::<(Seq<char>, u64)>::empty(),
    {
        Target { package, size: TargetSize::new() }
    }

    /// Adds `size` to the section, saturating.
    pub fn add(&mut self, section_name: String, size: u64)
        requires
            keys_unique(old(self).size.sizes()),
        ensures
            final(self).package == old(self).package,
            keys_unique(final(self).size.sizes()),
            final(self).size.sizes() == keyed_add(old(self).size.sizes(), section_name@, size),
    {
        self.size.add(section_name, size);
    }
}

/// Section sizes per package, one entry per package name.
#[derive(Debug, Clone)]
pub struct Targets {
    pub inner: Vec<Target>,
}

impl Targets {
    pub open spec fn wf(&self) -> bool {
        &&& forall|i: int, j: int|
            0 <= i < j < self.inner@.len() ==> self.inner@[i].package@ != self.inner@[j].package@
        &&& forall|i: int| 0 <= i < self.inner@.len() ==> keys_unique(#[trigger] self.inner@[i].size.sizes())
    }

    pub fn new() -> (r: Targets)
        ensures
            r.wf(),
            r.inner@.len() == 0,
    {
        Targets { inner: Vec::new() }
    }

    /// Adds `size` to the section of the package, creating either as needed.
    pub fn add(&mut self, package: String, section_name: String, size: u64)
        requires
            old(self).wf(),
        ensures
            final(self).wf(),
            exists|i: int|
                0 <= i < final(self).inner@.len() && #[trigger] final(self).inner@[i].package@ == package@
                    && final(self).inner@[i].size.sizes() == keyed_add(
                    if i < old(self).inner@.len() {
                        old(self).inner@[i].size.sizes()
                    } else {
                        Seq::empty()
                    },
                    section_name@,
                    size,
                ) && (forall|j: int|
                    0 <= j < final(self).inner@.len() && j != i ==> final(self).inner@[j]
                        == old(self).inner@[j]) && final(self).inner@.len() == if i < old(
                    self,
                ).inner@.len() {
                    old(self).inner@.len()
                } else {
                    old(self).inner@.len() + 1
                },
    {
        let mut i: usize = 0;
        while i < self.inner.len()
            invariant
                self.inner@ == old(self).inner@,
                old(self).wf(),
                i <= self.inner@.len(),
                forall|k: int| 0 <= k < i ==> self.inner@[k].package@ != package@,
            decreases self.inner@.len() - i,
        {
            if self.inner[i].package == package {
                assert(self.inner@[i as int] == old(self).inner@[i as int]);
                assert(keys_unique(old(self).inner@[i as int].size.sizes()));
                let ghost before = self.inner@;
                self.inner[i].add(section_name, size);
                proof {
                    assert forall|j: int| 0 <= j < self.inner@.len() && j != i implies self.inner@[j] == before[j] by {}
                    assert forall|j: int| 0 <= j < self.inner@.len() implies keys_unique(#[trigger] self.inner@[j].size.sizes()) by {
                        if j != i {
                            assert(self.inner@[j] == old(self).inner@[j]);
                        }
                    }
                    assert forall|a: int, b: int| 0 <= a < b < self.inner@.len() implies self.inner@[a].package@ != self.inner@[b].package@ by {
                        assert(self.inner@[a].package == old(self).inner@[a].package);
                        assert(self.inner@[b].package == old(self).inner@[b].package);
                    }
                    assert(final_ok(old(self).inner@, self.inner@, i as int, package@, section_name@, size));
                }
                return;
            }
            i += 1;
        }
        let mut t = Target::new(package);
        t.add(section_name, size);
        let ghost before = self.inner@;
        self.inner.push(t);
        proof {
            assert(self.inner@[i as int].size.sizes() == keyed_add(Seq::empty(), section_name@, size));
            assert forall|j: int| 0 <= j < self.inner@.len() implies keys_unique(#[trigger] self.inner@[j].size.sizes()) by {
                if j < before.len() {
                    assert(self.inner@[j] == old(self).inner@[j]);
                }
            }
        }
    }
}

spec fn final_ok(a: Seq<Target>, b: Seq<Target>, i: int, package: Seq<char>, section: Seq<char>, size: u64) -> bool {
    0 <= i < b.len() && b[i].package@ == package && b[i].size.sizes() == keyed_add(a[i].size.sizes(), section, size)
}

} // verus!
