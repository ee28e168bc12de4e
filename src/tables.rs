//! Shape validation of the weight tables, and where in a table the row of a
//! context lies.
use vstd::prelude::*;
use crate::config::{BIAS_OFFSET, HIDDEN, OVERFLOW_BUCKET, ROW_WIDTH, TABLE_COUNT};
use crate::context::{pow4, rows_needed, Context};

verus! {

/// A malformed configuration, found before any decoding starts.
#[derive(Clone, Copy, Debug, PartialEq, Eq, Structural)]
pub enum ConfigError {
    /// Not exactly one table per bucket.
    TableCount { found: usize },
    /// A table whose rows are not `ROW_WIDTH` values wide.
    RowWidth { table: usize, found: usize },
    /// A table with fewer rows than its bucket has reachable context states.
    TooFewRows { table: usize, found: usize, needed: usize },
    /// Feature vectors that are not `HIDDEN` values wide.
    FeatureWidth { found: usize },
}

/// Table `b`, of shape `(rows, columns)`, serves bucket `b`.
pub open spec fn table_fits(shape: (usize, usize), b: int) -> bool {
    shape.1 == ROW_WIDTH && shape.0 >= rows_needed(b)
}

/// All tables before index `n` fit their buckets.
pub open spec fn tables_fit_before(shapes: Seq<(usize, usize)>, n: int) -> bool {
    forall|j: int| 0 <= j < n ==> table_fits(#[trigger] shapes[j], j)
}

/// Where the row of one context lies in the flat storage of its table.
#[derive(Clone, Copy, Debug, PartialEq, Eq, Structural)]
pub struct RowSpan {
    /// Index of the first weight.
    pub start: usize,
    /// Index of the first bias, after the `HIDDEN * ALPHABET_SIZE` weights.
    pub bias: usize,
    /// One past the last bias.
    pub end: usize,
}

/// Row counts of the seven validated tables.
#[derive(Clone, Debug)]
pub struct TableLayout {
    rows: Vec<usize>,
}

/// Number of rows that the table of `bucket` must have.
pub fn required_rows(bucket: usize) -> (r: usize)
    requires
        bucket <= OVERFLOW_BUCKET,
    ensures
        r == rows_needed(bucket as int),
{
    let depth: usize = if bucket >= 5 {
        5
    } else {
        bucket
    };
    let mut r: usize = 1;
    let mut i: usize = 0;
    while i < depth
        invariant
            depth <= 5,
            i <= depth,
            r == pow4(i as nat),
            r <= 1024,
        decreases depth - i,
    {
        proof {
            reveal_with_fuel(pow4, 6);
            assert(i < 5);
            assert(pow4((i + 1) as nat) == 4 * pow4(i as nat));
            assert(pow4(i as nat) <= 256) by {
                reveal_with_fuel(pow4, 6);
            }
        }
        r = r * 4;
        i = i + 1;
    }
    r
}

/// Feature vectors must be exactly `HIDDEN` values wide.
pub fn check_feature_width(columns: usize) -> (r: Result<(), ConfigError>)
    ensures
        r is Ok <==> columns == HIDDEN,
        r is Err ==> r == Err::<(), ConfigError>(ConfigError::FeatureWidth { found: columns }),
{
    if columns == HIDDEN {
        Ok(())
    } else {
        Err(ConfigError::FeatureWidth { found: columns })
    }
}

impl TableLayout {
    /// Row count of each table, by bucket.
    pub closed spec fn rows_view(&self) -> Seq<usize> {
        self.rows@
    }

    /// Seven tables, each with a row for every context state of its bucket.
    pub open spec fn wf(&self) -> bool {
        &&& self.rows_view().len() == TABLE_COUNT
        &&& forall|b: int| 0 <= b < TABLE_COUNT ==> #[trigger] self.rows_view()[b] >= rows_needed(
            b,
        )
    }

    /// Checks the `(rows, columns)` shape of each table, in bucket order, and
    /// keeps their row counts. The first table that does not fit names the
    /// error.
    pub fn validate(shapes: &Vec<(usize, usize)>) -> (r: Result<TableLayout, ConfigError>)
        ensures
            (shapes@.len() == TABLE_COUNT && tables_fit_before(shapes@, TABLE_COUNT as int))
                ==> r is Ok,
            match r {
                Ok(l) => {
                    &&& shapes@.len() == TABLE_COUNT
                    &&& tables_fit_before(shapes@, TABLE_COUNT as int)
                    &&& l.wf()
                    &&& l.rows_view() == shapes@.map_values(|s: (usize, usize)| s.0)
                },
                Err(ConfigError::TableCount { found }) => {
                    shapes@.len() != TABLE_COUNT && found == shapes@.len()
                },
                Err(ConfigError::RowWidth { table, found }) => {
                    &&& shapes@.len() == TABLE_COUNT
                    &&& table < TABLE_COUNT
                    &&& tables_fit_before(shapes@, table as int)
                    &&& shapes@[table as int].1 != ROW_WIDTH
                    &&& found == shapes@[table as int].1
                },
                Err(ConfigError::TooFewRows { table, found, needed }) => {
                    &&& shapes@.len() == TABLE_COUNT
                    &&& table < TABLE_COUNT
                    &&& tables_fit_before(shapes@, table as int)
                    &&& shapes@[table as int].1 == ROW_WIDTH
                    &&& found == shapes@[table as int].0
                    &&& needed == rows_needed(table as int)
                    &&& found < needed
                },
                Err(ConfigError::FeatureWidth { .. }) => false,
            },
    {
        if shapes.len() != TABLE_COUNT {
            return Err(ConfigError::TableCount { found: shapes.len() });
        }
        let mut rows: Vec<usize> = Vec::new();
        let mut b: usize = 0;
        while b < TABLE_COUNT
            invariant
                shapes@.len() == TABLE_COUNT,
                b <= TABLE_COUNT,
                tables_fit_before(shapes@, b as int),
                rows@ == shapes@.subrange(0, b as int).map_values(|s: (usize, usize)| s.0),
            decreases TABLE_COUNT - b,
        {
            let (n, width) = shapes[b];
            if width != ROW_WIDTH {
                return Err(ConfigError::RowWidth { table: b, found: width });
            }
            let needed = required_rows(b);
            if n < needed {
                return Err(ConfigError::TooFewRows { table: b, found: n, needed });
            }
            rows.push(n);
            assert(shapes@.subrange(0, b + 1) =~= shapes@.subrange(0, b as int).push(
                shapes@[b as int],
            ));
            b = b + 1;
        }
        assert(shapes@.subrange(0, TABLE_COUNT as int) =~= shapes@);
        let l = TableLayout { rows };
        assert(l.wf()) by {
            assert forall|b: int| 0 <= b < TABLE_COUNT implies #[trigger] l.rows_view()[b]
                >= rows_needed(b) by {
                assert(table_fits(shapes@[b], b));
            }
        }
        Ok(l)
    }

    /// Number of rows of the table of `bucket`.
    pub fn rows_of(&self, bucket: usize) -> (r: usize)
        requires
            self.wf(),
            bucket < TABLE_COUNT,
        ensures
            r == self.rows_view()[bucket as int],
    {
        self.rows[bucket]
    }

    /// The row that serves context `c`, within the flat storage of table
    /// `c.bucket()`: the lookup stays inside that table.
    pub fn row_span(&self, c: &Context) -> (r: RowSpan)
        requires
            self.wf(),
            c.wf(),
        ensures
            r.start == c.state * ROW_WIDTH,
            r.bias == r.start + BIAS_OFFSET,
            r.end == r.start + ROW_WIDTH,
            r.end <= self.rows_view()[c.observed as int] * ROW_WIDTH,
    {
        proof {
            reveal_with_fuel(pow4, 6);
            assert(c.state < 1024);
            assert(c.state * ROW_WIDTH <= 1024 * ROW_WIDTH) by (nonlinear_arith)
                requires
                    c.state < 1024,
            ;
            assert(c.state + 1 <= self.rows_view()[c.observed as int]);
            assert(c.state * ROW_WIDTH + ROW_WIDTH <= self.rows_view()[c.observed as int]
                * ROW_WIDTH)
                by (nonlinear_arith)
                requires
                    c.state + 1 <= self.rows_view()[c.observed as int],
            ;
        }
        let start = c.state * ROW_WIDTH;
        RowSpan { start, bias: start + BIAS_OFFSET, end: start + ROW_WIDTH }
    }
}

} // verus!
