//! Reading the symbol table that the size tool prints as CSV.
use vstd::prelude::*;
use crate::artifact::{classify, packages_after, section_of, PackageView, Packages};
use crate::outside::{rows_view, size_rows, size_rows_of};

verus! {

/// Why a symbol table was refused as a whole.
#[derive(Debug, Clone, Copy, PartialEq, Eq, Structural)]
pub enum BloatyError {
    /// Some row is not `name, vm size, file size`.
    Malformed,
    /// The sizes together do not fit in 64 bits.
    TooLarge,
}

/// The groups after adding each row's file size under its name, in order; rows of size
/// zero leave no trace.
pub open spec fn packages_after_rows(
    pkgs: Seq<PackageView>,
    rows: Seq<(Seq<char>, u64, u64)>,
    gp: Seq<Seq<char>>,
) -> Seq<PackageView>
    decreases rows.len(),
{
    if rows.len() == 0 {
        pkgs
    } else {
        let prev = packages_after_rows(pkgs, rows.drop_last(), gp);
        let r = rows.last();
        if r.2 == 0 {
            prev
        } else {
            packages_after(prev, r.0, r.2, classify(r.0, section_of(r.0), gp))
        }
    }
}

/// The file sizes of the rows, summed.
pub open spec fn rows_size(rows: Seq<(Seq<char>, u64, u64)>) -> int
    decreases rows.len(),
{
    if rows.len() == 0 {
        0
    } else {
        rows_size(rows.drop_last()) + rows.last().2
    }
}

impl Packages {
    /// Adds every row's file size under its name.
    pub fn add_rows(&mut self, rows: &Vec<(String, u64, u64)>)
        requires
            old(self).wf(),
            old(self).total_size() + rows_size(rows_view(rows@)) <= u64::MAX,
        ensures
            final(self).wf(),
            final(self).go_package_names() == old(self).go_package_names(),
            final(self).total_size() == old(self).total_size() + rows_size(rows_view(rows@)),
            final(self).package_views() == packages_after_rows(
                old(self).package_views(),
                rows_view(rows@),
                old(self).go_package_names(),
            ),
    {
        let ghost rv = rows_view(rows@);
        let ghost start = self.package_views();
        let ghost t0 = self.total_size();
        let mut i: usize = 0;
        assert(rv.subrange(0, 0) =~= Seq::<(Seq<char>, u64, u64)>::empty());
        while i < rows.len()
            invariant
                rv == rows_view(rows@),
                i <= rv.len(),
                self.wf(),
                self.go_package_names() == old(self).go_package_names(),
                t0 == old(self).total_size(),
                start == old(self).package_views(),
                t0 + rows_size(rv) <= u64::MAX,
                self.total_size() == t0 + rows_size(rv.subrange(0, i as int)),
                self.package_views() == packages_after_rows(
                    start,
                    rv.subrange(0, i as int),
                    self.go_package_names(),
                ),
            decreases rv.len() - i,
        {
            proof {
                let q = rv.subrange(0, i + 1);
                assert(q.drop_last() =~= rv.subrange(0, i as int));
                lemma_rows_size_prefix(rv, i + 1);
            }
            let name = rows[i].0.clone();
            self.add(name, rows[i].2);
            i += 1;
        }
        assert(rv.subrange(0, rv.len() as int) =~= rv);
    }
}

pub proof fn lemma_rows_size_prefix(rows: Seq<(Seq<char>, u64, u64)>, j: int)
    requires
        0 <= j <= rows.len(),
    ensures
        rows_size(rows.subrange(0, j)) <= rows_size(rows),
    decreases rows.len() - j,
{
    if j < rows.len() {
        let a = rows.subrange(0, j + 1);
        assert(a.drop_last() =~= rows.subrange(0, j));
        lemma_rows_size_prefix(rows, j + 1);
    } else {
        assert(rows.subrange(0, j) =~= rows);
    }
}

/// The file sizes of the rows, summed, or nothing when the sum exceeds `limit`.
fn checked_rows_size(rows: &Vec<(String, u64, u64)>, limit: u64) -> (r: Option<u64>)
    ensures
        match r {
            Some(n) => n == rows_size(rows_view(rows@)) && n <= limit,
            None => rows_size(rows_view(rows@)) > limit,
        },
{
    let ghost rv = rows_view(rows@);
    let mut sum: u64 = 0;
    let mut i: usize = 0;
    while i < rows.len()
        invariant
            rv == rows_view(rows@),
            i <= rv.len(),
            sum == rows_size(rv.subrange(0, i as int)),
            sum <= limit,
        decreases rv.len() - i,
    {
        proof {
            let q = rv.subrange(0, i + 1);
            assert(q.drop_last() =~= rv.subrange(0, i as int));
        }
        if rows[i].2 > limit - sum {
            proof {
                lemma_rows_size_prefix(rv, i + 1);
            }
            return None;
        }
        sum = sum + rows[i].2;
        i += 1;
    }
    assert(rv.subrange(0, rv.len() as int) =~= rv);
    Some(sum)
}

/// Adds every row of the size tool's CSV output (`name, vm size, file size`, after a header
/// line) under its name. The whole table is refused, and nothing added, when a row is
/// malformed or the sizes would not fit.
pub fn parse_bloaty_result(output: &str, packages: &mut Packages) -> (r: Result<(), BloatyError>)
    requires
        old(packages).wf(),
    ensures
        final(packages).wf(),
        final(packages).go_package_names() == old(packages).go_package_names(),
        match size_rows_of(output@) {
            None => r == Err::<(), BloatyError>(BloatyError::Malformed) && final(packages).package_views()
                == old(packages).package_views() && final(packages).total_size() == old(
                packages,
            ).total_size(),
            Some(rows) => if old(packages).total_size() + rows_size(rows) > u64::MAX {
                r == Err::<(), BloatyError>(BloatyError::TooLarge) && final(packages).package_views()
                    == old(packages).package_views() && final(packages).total_size() == old(
                    packages,
                ).total_size()
            } else {
                r == Ok::<(), BloatyError>(()) && final(packages).package_views()
                    == packages_after_rows(
                    old(packages).package_views(),
                    rows,
                    old(packages).go_package_names(),
                ) && final(packages).total_size() == old(packages).total_size() + rows_size(rows)
            },
        },
{
    match size_rows(output) {
        None => Err(BloatyError::Malformed),
        Some(rows) => {
            let room = u64::MAX - packages.total();
            match checked_rows_size(&rows, room) {
                None => Err(BloatyError::TooLarge),
                Some(_) => {
                    packages.add_rows(&rows);
                    Ok(())
                },
            }
        },
    }
}

} // verus!
