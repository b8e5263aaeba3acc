//! Which schema migrations a database still needs.
use vstd::prelude::*;

use crate::error::Error;

verus! {

/// The indices of the migrations from `raw` up to `count`.
pub open spec fn pending_spec(raw: int, count: int) -> Seq<usize> {
    Seq::new((count - raw) as nat, |k: int| (raw + k) as usize)
}

/// The migrations still to run on a database at schema version `raw`, when
/// `count` migrations exist: the indices from `raw` up to `count`. A
/// negative version cannot be a schema version; one above `count` was
/// written by newer code.
pub fn pending_migrations(raw: i64, count: usize) -> (r: Result<Vec<usize>, Error>)
    requires
        count < i64::MAX,
    ensures
        raw < 0 ==> (r matches Err(Error::MigrationVersion(v)) && v == raw),
        raw > count ==> (r matches Err(Error::DatabaseVersion(v)) && v == raw),
        0 <= raw <= count ==> (r matches Ok(v) && v@ == pending_spec(raw as int, count as int)),
{
    if raw < 0 {
        return Err(Error::MigrationVersion(raw));
    }
    if raw > count as i64 {
        return Err(Error::DatabaseVersion(raw));
    }
    let curr = raw as usize;
    let mut out: Vec<usize> = Vec::new();
    let mut i = curr;
    while i < count
        invariant
            curr <= i <= count,
            curr == raw,
            out@ == Seq::new((i - curr) as nat, |k: int| (curr + k) as usize),
        decreases count - i,
    {
        out.push(i);
        assert(out@ =~= Seq::new((i + 1 - curr) as nat, |k: int| (curr + k) as usize));
        i = i + 1;
    }
    Ok(out)
}

/// The schema version a database is at once the migration at `index` ran.
pub fn version_after(index: usize) -> (v: i64)
    requires
        index < i64::MAX,
    ensures
        v == index + 1,
{
    index as i64 + 1
}

/// Running migrations is idempotent: after the pending ones have run, in
/// order, the database stands at the newest version, and from there none is
/// pending.
pub proof fn migrations_are_idempotent(raw: int, count: int)
    requires
        0 <= raw <= count < i64::MAX,
        count <= usize::MAX,
    ensures
        pending_spec(raw, count).len() == count - raw,
        forall|k: int|
            0 <= k < pending_spec(raw, count).len() ==> #[trigger] pending_spec(raw, count)[k] == raw + k,
        pending_spec(raw, count).len() > 0 ==> pending_spec(raw, count).last() + 1 == count,
        pending_spec(count, count).len() == 0,
{
    let p = pending_spec(raw, count);
    assert forall|k: int| 0 <= k < p.len() implies #[trigger] p[k] == raw + k by {
        assert(0 <= raw + k <= usize::MAX);
    }
    if p.len() > 0 {
        assert(p.last() == p[p.len() - 1]);
    }
}

} // verus!
