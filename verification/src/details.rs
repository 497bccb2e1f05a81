//! Instance specifications: a pass-through of the upstream record with
//! absent fields masked by defaults.
//!
//! The first matching record wins; no record at all is `NotFound`. A missing
//! architecture list joins to the empty string, a missing processor or
//! memory figure becomes zero — absence is deliberately indistinguishable
//! from zero here, as the table is informational only.

use vstd::prelude::*;

use crate::SpotError;
use crate::types::views;

verus! {

/// One upstream instance-type record, with every field the lookup reads
/// still optional, exactly as the upstream reports it.
#[derive(Debug)]
pub struct InstanceRecord {
    pub architectures: Option<Vec<Vec<u8>>>,
    pub vcpus: Option<i64>,
    pub memory_mib: Option<i64>,
}

/// The extracted specification: supported architectures joined with a
/// comma, the default processor count, and the memory in mebibytes
/// (callers divide by 1024 for a binary-convention gibibyte figure).
#[derive(Debug)]
pub struct InstanceSpec {
    pub architecture: Vec<u8>,
    pub vcpus: i64,
    pub memory_mib: i64,
}

/// The byte strings of `parts` joined with a comma and a space.
pub open spec fn joined(parts: Seq<Seq<u8>>) -> Seq<u8>
    decreases parts.len(),
{
    if parts.len() == 0 {
        Seq::empty()
    } else if parts.len() == 1 {
        parts[0]
    } else {
        joined(parts.drop_last()) + seq![44u8, 32u8] + parts.last()
    }
}

/// What the lookup extracts from one record.
pub open spec fn spec_of_record(rec: &InstanceRecord) -> (Seq<u8>, i64, i64) {
    (
        match rec.architectures {
            Some(ref a) => joined(views(a@)),
            None => Seq::empty(),
        },
        match rec.vcpus {
            Some(v) => v,
            None => 0,
        },
        match rec.memory_mib {
            Some(m) => m,
            None => 0,
        },
    )
}

/// Join byte strings with `", "`.
pub fn join_with_comma(parts: &Vec<Vec<u8>>) -> (r: Vec<u8>)
    ensures
        r@ == joined(views(parts@)),
{
    let mut r: Vec<u8> = Vec::new();
    let mut i: usize = 0;
    while i < parts.len()
        invariant
            i <= parts@.len(),
            r@ == joined(views(parts@).take(i as int)),
        decreases parts@.len() - i,
    {
        let ghost before = views(parts@).take(i as int);
        let ghost after = views(parts@).take(i as int + 1);
        proof {
            assert(after.drop_last() =~= before);
            assert(after.last() == parts@[i as int]@);
        }
        if i > 0 {
            r.push(44);
            r.push(32);
        }
        let part = &parts[i];
        let mut b: usize = 0;
        let ghost r_start = r@;
        while b < part.len()
            invariant
                b <= part@.len(),
                r@ == r_start + part@.take(b as int),
            decreases part@.len() - b,
        {
            r.push(part[b]);
            proof {
                assert(r_start + part@.take(b as int + 1) =~= (r_start + part@.take(
                    b as int,
                )).push(part@[b as int]));
            }
            b = b + 1;
        }
        proof {
            assert(part@.take(part@.len() as int) =~= part@);
            if i == 0 {
                assert(joined(before) =~= Seq::<u8>::empty());
                assert(r@ =~= joined(after));
            } else {
                assert(r@ =~= joined(before) + seq![44u8, 32u8] + part@);
            }
        }
        i = i + 1;
    }
    proof {
        assert(views(parts@).take(parts@.len() as int) =~= views(parts@));
    }
    r
}

/// Extract the specification of the first record, or `NotFound` when the
/// upstream returned none.
pub fn instance_spec_from_records(records: &Vec<InstanceRecord>) -> (r: Result<
    InstanceSpec,
    SpotError,
>)
    ensures
        r is Ok <==> records@.len() > 0,
        r is Err ==> r->Err_0 == SpotError::NotFound,
        r is Ok ==> {
            let s = r->Ok_0;
            let expected = spec_of_record(&records@[0]);
            &&& s.architecture@ == expected.0
            &&& s.vcpus == expected.1
            &&& s.memory_mib == expected.2
        },
{
    if records.len() == 0 {
        return Err(SpotError::NotFound);
    }
    let rec = &records[0];
    let architecture = match rec.architectures {
        Some(ref a) => join_with_comma(a),
        None => Vec::new(),
    };
    let vcpus = match rec.vcpus {
        Some(v) => v,
        None => 0,
    };
    let memory_mib = match rec.memory_mib {
        Some(m) => m,
        None => 0,
    };
    Ok(InstanceSpec { architecture, vcpus, memory_mib })
}

} // verus!
