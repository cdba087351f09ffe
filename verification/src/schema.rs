//! Resolving a column name to its position in a schema.

use vstd::prelude::*;
use crate::value::{str_eq, ColModel, ColumnDef};

verus! {

/// Position of the first column named `name`, if any.
pub open spec fn col_pos(schema: Seq<ColModel>, name: Seq<char>) -> Option<int>
    decreases schema.len(),
{
    if schema.len() == 0 {
        None
    } else if schema[0].name == name {
        Some(0int)
    } else {
        match col_pos(schema.skip(1), name) {
            Some(i) => Some(i + 1),
            None => None,
        }
    }
}

/// `col_pos` answers the first matching position.
pub proof fn lemma_col_pos_found(schema: Seq<ColModel>, name: Seq<char>, i: int)
    requires
        0 <= i < schema.len(),
        schema[i].name == name,
        forall|j: int| 0 <= j < i ==> schema[j].name != name,
    ensures
        col_pos(schema, name) == Some(i),
    decreases i,
{
    if i > 0 {
        assert(schema[0].name != name);
        assert(schema.skip(1)[i - 1].name == name);
        assert(forall|j: int| 0 <= j < i - 1 ==> schema.skip(1)[j].name != name);
        lemma_col_pos_found(schema.skip(1), name, i - 1);
    }
}

/// When no column matches, `col_pos` answers `None`.
pub proof fn lemma_col_pos_none(schema: Seq<ColModel>, name: Seq<char>)
    requires
        forall|j: int| 0 <= j < schema.len() ==> schema[j].name != name,
    ensures
        col_pos(schema, name) is None,
    decreases schema.len(),
{
    if schema.len() > 0 {
        assert(forall|j: int| 0 <= j < schema.skip(1).len() ==> schema.skip(1)[j].name != name);
        lemma_col_pos_none(schema.skip(1), name);
    }
}

/// A found position is in range and names the column.
pub proof fn lemma_col_pos_sound(schema: Seq<ColModel>, name: Seq<char>)
    ensures
        match col_pos(schema, name) {
            Some(i) => 0 <= i < schema.len() && schema[i].name == name,
            None => forall|j: int| 0 <= j < schema.len() ==> schema[j].name != name,
        },
    decreases schema.len(),
{
    if schema.len() > 0 {
        lemma_col_pos_sound(schema.skip(1), name);
        if schema[0].name != name {
            match col_pos(schema.skip(1), name) {
                Some(i) => {
                    assert(schema[i + 1] == schema.skip(1)[i]);
                },
                None => {
                    assert forall|j: int| 0 <= j < schema.len() implies schema[j].name != name by {
                        if j > 0 {
                            assert(schema.skip(1)[j - 1].name != name);
                        }
                    }
                },
            }
        }
    }
}

/// Finds the first column named `name` in `schema`.
pub fn find_col(schema: &Vec<ColumnDef>, name: &str) -> (r: Option<usize>)
    ensures
        match r {
            Some(i) => col_pos(schema.deep_view(), name@) == Some(i as int) && i < schema.len(),
            None => col_pos(schema.deep_view(), name@) is None,
        },
{
    let n = schema.len();
    let mut i: usize = 0;
    while i < n
        invariant
            n == schema.len(),
            i <= n,
            forall|j: int| 0 <= j < i ==> schema.deep_view()[j].name != name@,
        decreases n - i,
    {
        if str_eq(schema[i].name.as_str(), name) {
            proof {
                assert(schema.deep_view()[i as int].name == name@);
                lemma_col_pos_found(schema.deep_view(), name@, i as int);
            }
            return Some(i);
        }
        i = i + 1;
    }
    proof {
        lemma_col_pos_none(schema.deep_view(), name@);
    }
    None
}

} // verus!
