//! The scan node of a physical plan: a leaf that reads a table's files,
//! split into partitions, with a column projection and a global row limit.
use vstd::prelude::*;
use crate::error::ScanError;
use crate::planner::{plan, planned, files_of, PartitionSpec};
use crate::run::{ScanRun, run_wf, started, limit_nat, PartitionState};
use crate::schema::{DataType, Schema, projected, projection_in_range};
use crate::table::{IPCTable, Statistics};

verus! {

/// How many independent streams a node's output is split into.
#[derive(Debug, Clone, Copy, PartialEq, Eq, Structural)]
pub struct Partitioning {
    pub count: usize,
}

/// The row counts that the planner balances: an unknown count weighs nothing.
pub open spec fn plan_sizes(rows: Seq<Option<usize>>) -> Seq<usize> {
    rows.map_values(|r: Option<usize>| match r {
        Some(n) => n,
        None => 0usize,
    })
}

/// The schema that a projection leaves of `fields`.
pub open spec fn output_fields(
    fields: Seq<(Seq<char>, DataType, bool)>,
    projection: Option<Seq<usize>>,
) -> Seq<(Seq<char>, DataType, bool)> {
    match projection {
        None => fields,
        Some(p) => projected(fields, p),
    }
}

pub open spec fn projection_view(projection: Option<Vec<usize>>) -> Option<Seq<usize>> {
    match projection {
        None => None,
        Some(p) => Some(p@),
    }
}

/// Execution plan for reading a table's batches.
pub struct IPCExec {
    path: String,
    file_extension: String,
    schema: Schema,
    projection: Option<Vec<usize>>,
    projected_schema: Schema,
    batch_size: usize,
    limit: Option<usize>,
    statistics: Statistics,
    max_concurrency: usize,
    partitions: Vec<PartitionSpec>,
}

impl IPCExec {
    /// A scan of `table` split into `desired_partitions` partitions. A
    /// projection index past the table's schema is an invalid plan.
    pub fn try_new(
        table: &IPCTable,
        projection: Option<Vec<usize>>,
        batch_size: usize,
        limit: Option<usize>,
        desired_partitions: usize,
    ) -> (r: Result<IPCExec, ScanError>)
        requires
            desired_partitions >= 1,
            table.wf(),
        ensures
            r is Err <==> (projection matches Some(p) && !projection_in_range(p@, table.schema_view().len())),
            r is Err ==> r == Err::<IPCExec, ScanError>(ScanError::InvalidPlan),
            r matches Ok(n) ==> {
                &&& n.wf()
                &&& n.base_schema_view() == table.schema_view()
                &&& n.projection_spec() == projection_view(projection)
                &&& n.schema_view() == output_fields(table.schema_view(), projection_view(projection))
                &&& n.limit_view() == limit
                &&& n.concurrency_view() == table.concurrency_view()
                &&& n.statistics_view() == table.stats_view()
                &&& planned(plan_sizes(table.rows_view()), n.partitions_view(), desired_partitions as nat)
            },
    {
        let projected_schema = match table.schema().project(&projection) {
            Ok(s) => s,
            Err(e) => {
                return Err(e);
            },
        };
        let rows = table.file_rows();
        let mut sizes: Vec<usize> = Vec::new();
        let mut i: usize = 0;
        while i < rows.len()
            invariant
                i <= rows.len(),
                sizes@ == plan_sizes(rows@.subrange(0, i as int)),
            decreases rows.len() - i,
        {
            let size = match rows[i] {
                Some(n) => n,
                None => 0,
            };
            sizes.push(size);
            proof {
                assert(sizes@ =~= plan_sizes(rows@.subrange(0, i + 1)));
            }
            i = i + 1;
        }
        proof {
            assert(rows@.subrange(0, rows@.len() as int) =~= rows@);
        }
        let partitions = plan(&sizes, desired_partitions);
        Ok(IPCExec {
            path: table.path().clone(),
            file_extension: table.file_extension().clone(),
            schema: table.schema().duplicate(),
            projection,
            projected_schema,
            batch_size,
            limit,
            statistics: table.statistics(),
            max_concurrency: table.max_concurrency(),
            partitions,
        })
    }

    pub closed spec fn wf(&self) -> bool {
        &&& self.max_concurrency >= 1
        &&& self.partitions.len() >= 1
    }

    pub closed spec fn base_schema_view(&self) -> Seq<(Seq<char>, DataType, bool)> {
        self.schema@
    }

    pub closed spec fn projection_spec(&self) -> Option<Seq<usize>> {
        projection_view(self.projection)
    }

    pub closed spec fn schema_view(&self) -> Seq<(Seq<char>, DataType, bool)> {
        self.projected_schema@
    }

    pub closed spec fn limit_view(&self) -> Option<usize> {
        self.limit
    }

    pub closed spec fn concurrency_view(&self) -> usize {
        self.max_concurrency
    }

    pub closed spec fn statistics_view(&self) -> Statistics {
        self.statistics
    }

    pub closed spec fn partitions_view(&self) -> Seq<Seq<usize>> {
        files_of(self.partitions@)
    }

    /// The schema of the batches that the scan yields.
    pub fn schema(&self) -> (r: &Schema)
        ensures
            r@ == self.schema_view(),
    {
        &self.projected_schema
    }

    /// The table's schema before projection.
    pub fn base_schema(&self) -> (r: &Schema)
        ensures
            r@ == self.base_schema_view(),
    {
        &self.schema
    }

    /// The projection, if any: the columns each batch keeps, in order.
    pub fn projection(&self) -> (r: &Option<Vec<usize>>)
        ensures
            projection_view(*r) == self.projection_spec(),
    {
        &self.projection
    }

    pub fn limit(&self) -> (r: Option<usize>)
        ensures
            r == self.limit_view(),
    {
        self.limit
    }

    pub fn batch_size(&self) -> usize {
        self.batch_size
    }

    pub fn path(&self) -> &String {
        &self.path
    }

    pub fn file_extension(&self) -> &String {
        &self.file_extension
    }

    pub fn statistics(&self) -> (r: Statistics)
        ensures
            r == self.statistics_view(),
    {
        self.statistics
    }

    /// The partitioning fixed when the node was built.
    pub fn output_partitioning(&self) -> (r: Partitioning)
        ensures
            r.count == self.partitions_view().len(),
    {
        Partitioning { count: self.partitions.len() }
    }

    /// A scan is a leaf: it has no children.
    pub fn children(&self) -> (r: Vec<IPCExec>)
        ensures
            r@.len() == 0,
    {
        Vec::new()
    }

    /// A scan adopts no children: with none it stays as it is, with any it is
    /// an invalid plan.
    pub fn with_new_children(self, children: Vec<IPCExec>) -> (r: Result<IPCExec, ScanError>)
        ensures
            children@.len() == 0 <==> r == Ok::<IPCExec, ScanError>(self),
            children@.len() > 0 <==> r == Err::<IPCExec, ScanError>(ScanError::InvalidPlan),
    {
        if children.len() == 0 {
            Ok(self)
        } else {
            Err(ScanError::InvalidPlan)
        }
    }

    /// The shared state of one run of this scan: every partition unstarted.
    pub fn start_run(&self) -> (r: ScanRun)
        requires
            self.wf(),
        ensures
            run_wf(r@),
            r@.capacity == self.concurrency_view(),
            r@.in_use == 0,
            r@.emitted == 0,
            r@.limit == limit_nat(self.limit_view()),
            r@.states == Seq::new(self.partitions_view().len(), |i: int| PartitionState::Unstarted),
    {
        ScanRun::new(self.partitions.len(), self.max_concurrency, self.limit)
    }

    /// Starts partition `partition` of `run` and returns the files that its
    /// stream reads, in order. An index at or past the partition count fails
    /// and leaves the run as it was.
    pub fn execute(&self, run: &mut ScanRun, partition: usize) -> (r: Result<Vec<usize>, ScanError>)
        requires
            run_wf(old(run)@),
            old(run)@.states.len() == self.partitions_view().len(),
        ensures
            partition >= self.partitions_view().len() ==> {
                &&& r == Err::<Vec<usize>, ScanError>(
                    ScanError::IndexOutOfRange { index: partition, count: self.partitions_view().len() as usize },
                )
                &&& final(run)@ == old(run)@
            },
            partition < self.partitions_view().len() ==> {
                &&& r matches Ok(files) && files@ == self.partitions_view()[partition as int]
                &&& final(run)@ == started(old(run)@, partition as int)
            },
            run_wf(final(run)@),
    {
        if partition >= self.partitions.len() {
            return Err(ScanError::IndexOutOfRange { index: partition, count: self.partitions.len() });
        }
        run.start(partition);
        let src = &self.partitions[partition].files;
        let mut files: Vec<usize> = Vec::new();
        let mut i: usize = 0;
        while i < src.len()
            invariant
                i <= src.len(),
                files@ == src@.subrange(0, i as int),
            decreases src.len() - i,
        {
            files.push(src[i]);
            proof {
                assert(files@ =~= src@.subrange(0, i + 1));
            }
            i = i + 1;
        }
        proof {
            assert(src@.subrange(0, src@.len() as int) =~= src@);
        }
        Ok(files)
    }
}

} // verus!
