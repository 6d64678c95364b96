//! A table made of one or more files sharing one schema.
use vstd::prelude::*;
use crate::error::ScanError;
use crate::schema::Schema;

verus! {

/// The file name extension of the table's files.
pub const FILE_EXTENSION: &'static str = ".arrow_file";

/// What a file's metadata says of it, read without decoding its contents.
pub struct FileInfo {
    pub schema: Schema,
    pub num_rows: Option<usize>,
    pub byte_size: Option<usize>,
}

/// Planning facts about a table; an absent one is unknown, never zero.
#[derive(Debug, Clone, Copy, PartialEq, Eq)]
pub struct Statistics {
    pub num_rows: Option<usize>,
    pub total_byte_size: Option<usize>,
}

/// The sum of the values when every one is known.
pub open spec fn known_sum(vals: Seq<Option<usize>>) -> Option<int>
    decreases vals.len(),
{
    if vals.len() == 0 {
        Some(0)
    } else {
        match (known_sum(vals.drop_last()), vals.last()) {
            (Some(a), Some(b)) => Some(a + b),
            _ => None,
        }
    }
}

/// A known sum that fits a `usize`; anything else is unknown.
pub open spec fn fitting(sum: Option<int>) -> Option<usize> {
    match sum {
        Some(x) => if x <= usize::MAX {
            Some(x as usize)
        } else {
            None
        },
        None => None,
    }
}

pub open spec fn rows_of(files: Seq<FileInfo>) -> Seq<Option<usize>> {
    files.map_values(|f: FileInfo| f.num_rows)
}

pub open spec fn bytes_of(files: Seq<FileInfo>) -> Seq<Option<usize>> {
    files.map_values(|f: FileInfo| f.byte_size)
}

proof fn lemma_known_sum_nonneg(vals: Seq<Option<usize>>)
    ensures
        known_sum(vals) matches Some(x) ==> x >= 0,
    decreases vals.len(),
{
    if vals.len() > 0 {
        lemma_known_sum_nonneg(vals.drop_last());
    }
}

/// Sums the values, unknown where one is unknown or the sum passes `usize`.
pub fn sum_known(vals: &Vec<Option<usize>>) -> (r: Option<usize>)
    ensures
        r == fitting(known_sum(vals@)),
{
    let mut acc: usize = 0;
    let mut unknown = false;
    let mut big = false;
    let mut i: usize = 0;
    while i < vals.len()
        invariant
            i <= vals.len(),
            unknown <==> known_sum(vals@.subrange(0, i as int)) is None,
            !unknown ==> (big <==> known_sum(vals@.subrange(0, i as int))->Some_0 > usize::MAX),
            !unknown && !big ==> known_sum(vals@.subrange(0, i as int)) == Some(acc as int),
        decreases vals.len() - i,
    {
        proof {
            assert(vals@.subrange(0, i + 1).drop_last() =~= vals@.subrange(0, i as int));
        }
        match vals[i] {
            None => {
                unknown = true;
            },
            Some(v) => {
                if !unknown && !big {
                    if v <= usize::MAX - acc {
                        acc = acc + v;
                    } else {
                        big = true;
                    }
                }
            },
        }
        i = i + 1;
    }
    proof {
        assert(vals@.subrange(0, vals@.len() as int) =~= vals@);
    }
    if unknown || big {
        None
    } else {
        Some(acc)
    }
}

/// A table: its path, the files found there, their common schema and summed
/// statistics, and how many decoders it may have open at once.
pub struct IPCTable {
    path: String,
    file_extension: String,
    schema: Schema,
    statistics: Statistics,
    max_concurrency: usize,
    file_rows: Vec<Option<usize>>,
}

/// The first file whose schema differs from the first file's.
pub open spec fn first_mismatch(files: Seq<FileInfo>, i: int) -> bool {
    &&& 0 < i < files.len()
    &&& files[i].schema@ != files[0].schema@
    &&& forall|j: int| 0 < j < i ==> (#[trigger] files[j]).schema@ == files[0].schema@
}

impl IPCTable {
    /// A table over the files found at `path`. No file is an error; so is a
    /// file whose schema differs from the first one's, and the error names the
    /// first such file. Statistics are summed where every file carries them.
    pub fn try_new(path: &str, max_concurrency: usize, files: &Vec<FileInfo>) -> (r: Result<IPCTable, ScanError>)
        requires
            max_concurrency >= 1,
        ensures
            files.len() == 0 <==> r == Err::<IPCTable, ScanError>(ScanError::PathNotFound),
            forall|i: int| first_mismatch(files@, i) ==> r == Err::<IPCTable, ScanError>(
                ScanError::SchemaMismatch { file: i as usize },
            ),
            r is Ok <==> files.len() > 0 && forall|j: int| 0 < j < files.len() ==> (#[trigger] files@[j]).schema@ == files@[0].schema@,
            r matches Ok(t) ==> {
                &&& t.path_view() == path@
                &&& t.schema_view() == files@[0].schema@
                &&& t.concurrency_view() == max_concurrency
                &&& t.wf()
                &&& t.stats_view().num_rows == fitting(known_sum(rows_of(files@)))
                &&& t.stats_view().total_byte_size == fitting(known_sum(bytes_of(files@)))
                &&& t.rows_view() == rows_of(files@)
            },
    {
        if files.len() == 0 {
            return Err(ScanError::PathNotFound);
        }
        let mut rows: Vec<Option<usize>> = Vec::new();
        let mut bytes: Vec<Option<usize>> = Vec::new();
        let mut i: usize = 0;
        while i < files.len()
            invariant
                0 < files.len(),
                i <= files.len(),
                rows@ == rows_of(files@.subrange(0, i as int)),
                bytes@ == bytes_of(files@.subrange(0, i as int)),
                forall|j: int| 0 < j < i ==> (#[trigger] files@[j]).schema@ == files@[0].schema@,
            decreases files.len() - i,
        {
            if i > 0 && !files[i].schema.same_as(&files[0].schema) {
                proof {
                    assert(first_mismatch(files@, i as int));
                    assert forall|k: int| first_mismatch(files@, k) implies k == i by {
                        if k < i {
                            assert(files@[k].schema@ == files@[0].schema@);
                        }
                        if k > i {
                            assert(files@[i as int].schema@ == files@[0].schema@);
                        }
                    }
                }
                return Err(ScanError::SchemaMismatch { file: i });
            }
            rows.push(files[i].num_rows);
            bytes.push(files[i].byte_size);
            proof {
                assert(rows@ =~= rows_of(files@.subrange(0, i + 1)));
                assert(bytes@ =~= bytes_of(files@.subrange(0, i + 1)));
            }
            i = i + 1;
        }
        proof {
            assert(files@.subrange(0, files@.len() as int) =~= files@);
        }
        let statistics = Statistics { num_rows: sum_known(&rows), total_byte_size: sum_known(&bytes) };
        Ok(IPCTable {
            path: path.to_owned(),
            file_extension: FILE_EXTENSION.to_owned(),
            schema: files[0].schema.duplicate(),
            statistics,
            max_concurrency,
            file_rows: rows,
        })
    }

    pub closed spec fn path_view(&self) -> Seq<char> {
        self.path@
    }

    pub fn path(&self) -> (r: &String)
        ensures
            r@ == self.path_view(),
    {
        &self.path
    }

    pub fn file_extension(&self) -> (r: &String) {
        &self.file_extension
    }

    pub closed spec fn schema_view(&self) -> Seq<(Seq<char>, crate::schema::DataType, bool)> {
        self.schema@
    }

    pub fn schema(&self) -> (r: &Schema)
        ensures
            r@ == self.schema_view(),
    {
        &self.schema
    }

    pub closed spec fn stats_view(&self) -> Statistics {
        self.statistics
    }

    pub fn statistics(&self) -> (r: Statistics)
        ensures
            r == self.stats_view(),
    {
        self.statistics
    }

    pub closed spec fn concurrency_view(&self) -> usize {
        self.max_concurrency
    }

    pub closed spec fn wf(&self) -> bool {
        self.max_concurrency >= 1
    }

    pub fn max_concurrency(&self) -> (r: usize)
        ensures
            r == self.concurrency_view(),
            self.wf() ==> r >= 1,
    {
        self.max_concurrency
    }

    pub closed spec fn rows_view(&self) -> Seq<Option<usize>> {
        self.file_rows@
    }

    /// The row count of each file, where its metadata gives it.
    pub fn file_rows(&self) -> (r: &Vec<Option<usize>>)
        ensures
            r@ == self.rows_view(),
    {
        &self.file_rows
    }
}

} // verus!
