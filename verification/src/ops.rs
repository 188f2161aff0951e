use vstd::prelude::*;

verus! {

/// A COPY operation of a diff: take `length` bytes at `source_offset` in the
/// source file and place them at `offset` in the destination file.
#[derive(Clone, Copy, PartialEq, Eq, Structural, Debug)]
pub struct CopyOp {
    /// Offset in the source file, where the bytes are read from.
    pub source_offset: u64,
    /// Offset in the target file, the canonical sort key.
    pub offset: u64,
    /// Length of the copied range in bytes.
    pub length: usize,
}

/// An INSERT operation of a diff: place `length` bytes, originally read from
/// the target stream at `offset`, at `offset` in the destination file. The id
/// only serves to find those bytes in the diff payload file later.
#[derive(Clone, Copy, PartialEq, Eq, Structural, Debug)]
pub struct InsertOp {
    /// Offset in the target file.
    pub offset: u64,
    /// Length of the inserted range in bytes.
    pub length: usize,
    /// Payload lookup key, unique within one diff.
    pub uuid: u64,
}

/// One entry of a diff's operation list, ordered by target offset.
#[derive(Clone, Copy, PartialEq, Eq, Structural, Debug)]
pub enum Operation {
    INSERT(InsertOp),
    COPY(CopyOp),
}

/// Common read access shared by both operation kinds.
pub trait Op {
    /// The operation's offset in the target file, as contracts see it.
    spec fn spec_offset(&self) -> u64;

    /// The operation's length, as contracts see it.
    spec fn spec_length(&self) -> usize;

    /// Returns the offset of this op in the target file.
    fn offset(&self) -> (r: u64)
        ensures
            r == self.spec_offset(),
    ;

    /// Returns the length of this op.
    fn length(&self) -> (r: usize)
        ensures
            r == self.spec_length(),
    ;
}

impl Op for CopyOp {
    open spec fn spec_offset(&self) -> u64 {
        self.offset
    }

    open spec fn spec_length(&self) -> usize {
        self.length
    }

    fn offset(&self) -> u64 {
        self.offset
    }

    fn length(&self) -> usize {
        self.length
    }
}

impl Op for InsertOp {
    open spec fn spec_offset(&self) -> u64 {
        self.offset
    }

    open spec fn spec_length(&self) -> usize {
        self.length
    }

    fn offset(&self) -> u64 {
        self.offset
    }

    fn length(&self) -> usize {
        self.length
    }
}

impl CopyOp {
    /// Returns the offset in the source file the bytes are copied from.
    pub fn source_offset(&self) -> (r: u64)
        ensures
            r == self.source_offset,
    {
        self.source_offset
    }

    /// A following copy can be chained onto this one when it continues it
    /// directly in the source file and in the target file at once.
    pub open spec fn spec_can_chain(self, other: CopyOp) -> bool {
        self.source_offset + self.length == other.source_offset && self.offset + self.length
            == other.offset
    }

    /// Tests whether `other` directly continues `self` in both files.
    pub fn can_chain(&self, other: &CopyOp) -> (r: bool)
        requires
            self.source_offset + self.length <= u64::MAX,
            self.offset + self.length <= u64::MAX,
        ensures
            r == self.spec_can_chain(*other),
    {
        self.source_offset + (self.length as u64) == other.source_offset && self.offset
            + (self.length as u64) == other.offset
    }
}

impl InsertOp {
    /// Returns the payload lookup id of this insert.
    pub fn uuid(&self) -> (r: u64)
        ensures
            r == self.uuid,
    {
        self.uuid
    }

    /// A following insert can be chained onto this one when it continues it
    /// directly in the target file.
    pub open spec fn spec_can_chain(self, other: InsertOp) -> bool {
        self.offset + self.length == other.offset
    }

    /// Tests whether `other` directly continues `self` in the target file.
    pub fn can_chain(&self, other: &InsertOp) -> (r: bool)
        requires
            self.offset + self.length <= u64::MAX,
        ensures
            r == self.spec_can_chain(*other),
    {
        self.offset + (self.length as u64) == other.offset
    }
}

impl Operation {
    /// The target offset of either kind of operation, as contracts see it.
    pub open spec fn spec_offset(&self) -> u64 {
        match self {
            Operation::COPY(op) => op.offset,
            Operation::INSERT(op) => op.offset,
        }
    }

    /// The length of either kind of operation, as contracts see it.
    pub open spec fn spec_length(&self) -> usize {
        match self {
            Operation::COPY(op) => op.length,
            Operation::INSERT(op) => op.length,
        }
    }

    /// Returns the offset of this operation in the target file.
    pub fn offset(&self) -> (r: u64)
        ensures
            r == self.spec_offset(),
    {
        match self {
            Operation::COPY(op) => op.offset(),
            Operation::INSERT(op) => op.offset(),
        }
    }
}

/// The summed lengths of a list of insert operations.
pub open spec fn inserts_len_sum(ops: Seq<InsertOp>) -> int
    decreases ops.len(),
{
    if ops.len() == 0 {
        0
    } else {
        inserts_len_sum(ops.drop_last()) + ops.last().length
    }
}

pub proof fn lemma_inserts_sum_step(ops: Seq<InsertOp>, i: int)
    requires
        0 <= i < ops.len(),
    ensures
        inserts_len_sum(ops.subrange(0, i + 1)) == inserts_len_sum(ops.subrange(0, i))
            + ops[i].length,
{
    assert(ops.subrange(0, i + 1).drop_last() =~= ops.subrange(0, i));
    assert(ops.subrange(0, i + 1).last() == ops[i]);
}

pub proof fn lemma_inserts_sum_prefix_le(ops: Seq<InsertOp>, i: int)
    requires
        0 <= i <= ops.len(),
    ensures
        inserts_len_sum(ops.subrange(0, i)) <= inserts_len_sum(ops),
        inserts_len_sum(ops.subrange(0, i)) >= 0,
    decreases ops.len() - i,
{
    if i == ops.len() {
        assert(ops.subrange(0, i) =~= ops);
        lemma_inserts_sum_nonneg(ops);
    } else {
        lemma_inserts_sum_step(ops, i);
        lemma_inserts_sum_prefix_le(ops, i + 1);
        lemma_inserts_sum_nonneg(ops.subrange(0, i));
    }
}

pub proof fn lemma_inserts_sum_nonneg(ops: Seq<InsertOp>)
    ensures
        inserts_len_sum(ops) >= 0,
    decreases ops.len(),
{
    if ops.len() > 0 {
        lemma_inserts_sum_nonneg(ops.drop_last());
    }
}

pub proof fn lemma_inserts_sum_push(ops: Seq<InsertOp>, x: InsertOp)
    ensures
        inserts_len_sum(ops.push(x)) == inserts_len_sum(ops) + x.length,
{
    assert(ops.push(x).drop_last() =~= ops);
}

pub proof fn lemma_inserts_sum_update_last(ops: Seq<InsertOp>, x: InsertOp)
    requires
        ops.len() > 0,
    ensures
        inserts_len_sum(ops.update(ops.len() - 1, x)) == inserts_len_sum(ops) - ops.last().length
            + x.length,
{
    assert(ops.update(ops.len() - 1, x).drop_last() =~= ops.drop_last());
    assert(ops.update(ops.len() - 1, x).last() == x);
}

/// The operations partition `[0, end)` of the target file: the first starts
/// at offset zero, each next one starts exactly where the previous one ends,
/// every length is positive, and the last one ends at `end`.
pub open spec fn ops_tile(ops: Seq<Operation>, end: int) -> bool {
    &&& (ops.len() > 0 ==> ops[0].spec_offset() == 0)
    &&& (forall|i: int|
        0 <= i && i + 1 < ops.len() ==> (#[trigger] ops[i + 1]).spec_offset() == ops[i].spec_offset()
            + ops[i].spec_length())
    &&& (forall|i: int| 0 <= i < ops.len() ==> (#[trigger] ops[i]).spec_length() > 0)
    &&& (if ops.len() == 0 {
        end == 0
    } else {
        ops.last().spec_offset() + ops.last().spec_length() == end
    })
}

/// In a tiling, every operation lies inside `[0, end)` and offsets ascend
/// strictly: each operation ends no later than any later one starts.
pub proof fn lemma_tile_mono(ops: Seq<Operation>, end: int, i: int, j: int)
    requires
        ops_tile(ops, end),
        0 <= i < j < ops.len(),
    ensures
        ops[i].spec_offset() + ops[i].spec_length() <= ops[j].spec_offset(),
    decreases j - i,
{
    if j == i + 1 {
        assert(ops[i + 1].spec_offset() == ops[i].spec_offset() + ops[i].spec_length());
    } else {
        lemma_tile_mono(ops, end, i, j - 1);
        assert(ops[(j - 1) + 1].spec_offset() == ops[j - 1].spec_offset() + ops[j
            - 1].spec_length());
    }
}

pub proof fn lemma_tile_bounds(ops: Seq<Operation>, end: int)
    requires
        ops_tile(ops, end),
    ensures
        forall|i: int|
            0 <= i < ops.len() ==> (#[trigger] ops[i]).spec_offset() + ops[i].spec_length() <= end,
        forall|i: int, j: int|
            0 <= i < j < ops.len() ==> (#[trigger] ops[i]).spec_offset() + ops[i].spec_length()
                <= (#[trigger] ops[j]).spec_offset(),
{
    assert forall|i: int, j: int|
        0 <= i < j < ops.len() implies (#[trigger] ops[i]).spec_offset() + ops[i].spec_length()
        <= (#[trigger] ops[j]).spec_offset() by {
        lemma_tile_mono(ops, end, i, j);
    }
    assert forall|i: int|
        0 <= i < ops.len() implies (#[trigger] ops[i]).spec_offset() + ops[i].spec_length()
        <= end by {
        if i < ops.len() - 1 {
            lemma_tile_mono(ops, end, i, ops.len() - 1);
            assert(ops[ops.len() - 1].spec_offset() + ops[ops.len() - 1].spec_length() == end);
        }
    }
}

} // verus!
