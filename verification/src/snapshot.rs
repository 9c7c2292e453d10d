use vstd::prelude::*;

verus! {

/// One item of the collection, as the authoritative store holds it.
///
/// The name is carried as its UTF-8 bytes; rendering it as text is the
/// presentation layer's concern.
#[derive(Debug, PartialEq, Eq)]
pub struct Record {
    /// Unique integer identifier of the item.
    pub id: i32,
    /// Name of the item, as UTF-8 bytes.
    pub name: Vec<u8>,
}

/// Mathematical view of a [`Record`]: an unbounded integer and a byte sequence.
#[verifier::ext_equal]
pub ghost struct RecordV {
    pub id: int,
    pub name: Seq<u8>,
}

impl DeepView for Record {
    type V = RecordV;

    open spec fn deep_view(&self) -> RecordV {
        RecordV { id: self.id as int, name: self.name@ }
    }
}

/// Builds the collection snapshot from the plain rows the store query yields.
pub fn records_from_rows(rows: &Vec<(i32, Vec<u8>)>) -> (out: Vec<Record>)
    ensures
        out.deep_view().len() == rows@.len(),
        forall|i: int|
            0 <= i < rows@.len() ==> out.deep_view()[i] == (RecordV {
                id: rows@[i].0 as int,
                name: rows@[i].1@,
            }),
{
    let mut out: Vec<Record> = Vec::new();
    let mut i: usize = 0;
    while i < rows.len()
        invariant
            i <= rows@.len(),
            out.deep_view().len() == i,
            forall|q: int|
                0 <= q < i ==> out.deep_view()[q] == (RecordV {
                    id: rows@[q].0 as int,
                    name: rows@[q].1@,
                }),
        decreases rows@.len() - i,
    {
        let name: Vec<u8> = rows[i].1.clone();
        proof {
            assert(name@ =~= rows@[i as int].1@);
        }
        let ghost pre_seq = out@;
        let ghost pre_dv = out.deep_view();
        out.push(Record { id: rows[i].0, name });
        proof {
            assert forall|q: int|
                0 <= q < i + 1 implies out.deep_view()[q] == (RecordV {
                id: rows@[q].0 as int,
                name: rows@[q].1@,
            }) by {
                assert(out.deep_view()[q] == out@[q].deep_view());
                if q < i {
                    assert(out@[q] == pre_seq[q]);
                    assert(pre_dv[q] == pre_seq[q].deep_view());
                }
            }
        }
        i = i + 1;
    }
    out
}

} // verus!
