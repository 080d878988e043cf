use vstd::prelude::*;

use crate::types::LogLevel;

verus! {

/// One log entry. A record is immutable once constructed; only the store
/// holding it is mutated. The timestamp counts milliseconds since the Unix
/// epoch; category names keep their insertion order and may repeat; the
/// message holds no newline and is truncated to the store's maximum length
/// at ingestion.
pub struct LogRecord {
    pub timestamp: i64,
    pub level: LogLevel,
    pub categories: Vec<String>,
    pub message: String,
}

impl LogRecord {
    /// The category names of this record, as character sequences.
    pub open spec fn cats(self) -> Seq<Seq<char>> {
        self.categories.deep_view()
    }
}

impl Clone for LogRecord {
    /// The copy agrees field for field with the value it was made from.
    fn clone(&self) -> (r: Self)
        ensures
            r.timestamp == self.timestamp,
            r.level == self.level,
            r.categories@ == self.categories@,
            r.message == self.message,
    {
        let mut categories: Vec<String> = Vec::new();
        let mut i: usize = 0;
        while i < self.categories.len()
            invariant
                i <= self.categories@.len(),
                categories@ == self.categories@.take(i as int),
            decreases self.categories@.len() - i,
        {
            categories.push(self.categories[i].clone());
            proof {
                assert(categories@ =~= self.categories@.take(i + 1));
            }
            i += 1;
        }
        proof {
            assert(self.categories@.take(self.categories@.len() as int) =~= self.categories@);
        }
        LogRecord {
            timestamp: self.timestamp,
            level: self.level,
            categories,
            message: self.message.clone(),
        }
    }
}

} // verus!
