//! Field descriptors, schemas and column projection.
use vstd::prelude::*;
use crate::error::ScanError;

verus! {

#[derive(Debug, Clone, Copy, PartialEq, Eq, Structural)]
pub enum DataType {
    Boolean,
    Int8,
    Int16,
    Int32,
    Int64,
    UInt8,
    UInt16,
    UInt32,
    UInt64,
    Float,
    Double,
    Utf8,
    Binary,
    Date32,
    Date64,
}

/// A column's name, type and nullability.
#[derive(Debug)]
pub struct Field {
    pub name: String,
    pub data_type: DataType,
    pub nullable: bool,
}

impl View for Field {
    type V = (Seq<char>, DataType, bool);

    open spec fn view(&self) -> (Seq<char>, DataType, bool) {
        (self.name@, self.data_type, self.nullable)
    }
}

impl Field {
    pub fn new(name: &str, data_type: DataType, nullable: bool) -> (r: Field)
        ensures
            r@ == (name@, data_type, nullable),
    {
        Field { name: name.to_owned(), data_type, nullable }
    }

    /// A field equal to this one.
    pub fn duplicate(&self) -> (r: Field)
        ensures
            r@ == self@,
    {
        Field { name: self.name.clone(), data_type: self.data_type, nullable: self.nullable }
    }
}

/// The views of a sequence of fields.
pub open spec fn field_views(fields: Seq<Field>) -> Seq<(Seq<char>, DataType, bool)> {
    fields.map_values(|f: Field| f@)
}

/// An ordered list of fields.
#[derive(Debug)]
pub struct Schema {
    pub fields: Vec<Field>,
}

impl View for Schema {
    type V = Seq<(Seq<char>, DataType, bool)>;

    open spec fn view(&self) -> Seq<(Seq<char>, DataType, bool)> {
        field_views(self.fields@)
    }
}

/// The fields of `fields` at the positions `projection`, in that order.
pub open spec fn projected(
    fields: Seq<(Seq<char>, DataType, bool)>,
    projection: Seq<usize>,
) -> Seq<(Seq<char>, DataType, bool)> {
    projection.map_values(|i: usize| fields[i as int])
}

/// Every index of `projection` names a field of a schema of `n` fields.
pub open spec fn projection_in_range(projection: Seq<usize>, n: nat) -> bool {
    forall|i: int| 0 <= i < projection.len() ==> projection[i] < n
}

/// A projection in range leaves exactly its columns, in its order, each of
/// the base schema's type at that index.
pub proof fn lemma_projection_shape(fields: Seq<(Seq<char>, DataType, bool)>, projection: Seq<usize>)
    requires
        projection_in_range(projection, fields.len()),
    ensures
        projected(fields, projection).len() == projection.len(),
        forall|i: int|
            0 <= i < projection.len() ==> #[trigger] projected(fields, projection)[i] == fields[projection[i] as int]
                && projected(fields, projection)[i].1 == fields[projection[i] as int].1,
{
}

impl Schema {
    pub fn new(fields: Vec<Field>) -> (r: Schema)
        ensures
            r.fields@ == fields@,
    {
        Schema { fields }
    }

    pub fn len(&self) -> (r: usize)
        ensures
            r == self@.len(),
    {
        self.fields.len()
    }

    /// A schema equal to this one.
    pub fn duplicate(&self) -> (r: Schema)
        ensures
            r@ == self@,
    {
        let mut fields: Vec<Field> = Vec::new();
        let mut i: usize = 0;
        while i < self.fields.len()
            invariant
                i <= self.fields.len(),
                fields.len() == i,
                self@.len() == self.fields.len(),
                field_views(fields@) == self@.subrange(0, i as int),
            decreases self.fields.len() - i,
        {
            let f = self.fields[i].duplicate();
            fields.push(f);
            proof {
                let ghost fv = field_views(fields@);
                assert(fv.len() == i + 1);
                assert(fv[i as int] == self@[i as int]);
                assert(forall|j: int| 0 <= j < i ==> fv[j] == self@.subrange(0, i as int)[j]);
                assert(fv =~= self@.subrange(0, i + 1));
            }
            i = i + 1;
        }
        proof {
            assert(self@.subrange(0, self@.len() as int) =~= self@);
        }
        Schema { fields }
    }

    /// Whether both schemas list the same fields in the same order.
    pub fn same_as(&self, other: &Schema) -> (r: bool)
        ensures
            r == (self@ == other@),
    {
        if self.fields.len() != other.fields.len() {
            proof {
                assert(self@.len() != other@.len());
            }
            return false;
        }
        let mut i: usize = 0;
        while i < self.fields.len()
            invariant
                i <= self.fields.len(),
                self.fields.len() == other.fields.len(),
                forall|j: int| 0 <= j < i ==> self@[j] == other@[j],
            decreases self.fields.len() - i,
        {
            let a = &self.fields[i];
            let b = &other.fields[i];
            if !(a.name == b.name && a.data_type == b.data_type && a.nullable == b.nullable) {
                proof {
                    assert(self@[i as int] != other@[i as int]);
                }
                return false;
            }
            i = i + 1;
        }
        proof {
            assert(self@ =~= other@);
        }
        true
    }

    /// This schema restricted to, and reordered by, `projection`; the whole
    /// schema where there is none. An index past the schema is an invalid plan.
    pub fn project(&self, projection: &Option<Vec<usize>>) -> (r: Result<Schema, ScanError>)
        ensures
            projection is None ==> r.is_ok() && r->Ok_0@ == self@,
            projection is Some ==> (r.is_ok() <==> projection_in_range(
                projection->Some_0@,
                self@.len(),
            )),
            projection is Some && r.is_ok() ==> r->Ok_0@ == projected(self@, projection->Some_0@),
            r.is_err() ==> r == Err::<Schema, ScanError>(ScanError::InvalidPlan),
    {
        match projection {
            None => Ok(self.duplicate()),
            Some(p) => {
                let mut fields: Vec<Field> = Vec::new();
                let mut i: usize = 0;
                while i < p.len()
                    invariant
                        i <= p.len(),
                        projection is Some,
                        projection->Some_0@ == p@,
                        fields.len() == i,
                        self@.len() == self.fields.len(),
                        projection_in_range(p@.subrange(0, i as int), self@.len()),
                        field_views(fields@) == projected(self@, p@.subrange(0, i as int)),
                    decreases p.len() - i,
                {
                    let k = p[i];
                    if k >= self.fields.len() {
                        proof {
                            assert(p@[i as int] >= self@.len());
                        }
                        return Err(ScanError::InvalidPlan);
                    }
                    let f = self.fields[k].duplicate();
                    fields.push(f);
                    proof {
                        let ghost fv = field_views(fields@);
                        let ghost want = projected(self@, p@.subrange(0, i + 1));
                        assert(fv[i as int] == want[i as int]);
                        assert(forall|j: int| 0 <= j < i ==> fv[j] == projected(self@, p@.subrange(0, i as int))[j]);
                        assert(fv =~= want);
                    }
                    i = i + 1;
                }
                proof {
                    assert(p@.subrange(0, p@.len() as int) =~= p@);
                }
                Ok(Schema { fields })
            },
        }
    }
}

} // verus!
