//! Tuning options: a pass-through configuration surface. The numbers
//! steer engine behaviour that has no bearing on the stored contents,
//! plus the capacity of the table-handle cache.

use vstd::prelude::*;
use vstd::string::StringSliceAdditionalSpecFns;

verus! {

/// Numeric tuning knobs of a store, with the defaults it opens under.
#[derive(Clone)]
pub struct Options {
    pub cache_capacity: usize,
    pub table_cache_num_shard_bits: i32,
    pub write_buffer_size: usize,
    pub max_write_buffer_number: i32,
    pub min_write_buffer_number_to_merge: i32,
    pub max_bytes_for_level_base: u64,
    pub target_file_size_base: u64,
    pub target_file_size_multiplier: i32,
    pub level_zero_file_num_compaction_trigger: i32,
    pub max_background_jobs: i32,
    pub wal_ttl_seconds: u64,
    pub wal_size_limit_mb: u64,
    pub wal_dir: Vec<u8>,
}

impl Options {
    /// The default tuning.
    pub fn new() -> (r: Options)
        ensures
            r.cache_capacity == 10240,
    {
        Options {
            cache_capacity: 10240,
            table_cache_num_shard_bits: 4,
            write_buffer_size: 134217728,
            max_write_buffer_number: 4,
            min_write_buffer_number_to_merge: 2,
            max_bytes_for_level_base: 1073741824,
            target_file_size_base: 134217728,
            target_file_size_multiplier: 8,
            level_zero_file_num_compaction_trigger: 4,
            max_background_jobs: 4,
            wal_ttl_seconds: 0,
            wal_size_limit_mb: 0,
            wal_dir: Vec::new(),
        }
    }

    pub fn set_table_cache_num_shard_bits(&mut self, num: i32)
        ensures
            *final(self) == (Options { table_cache_num_shard_bits: num, ..*old(self) }),
    {
        self.table_cache_num_shard_bits = num;
    }

    pub fn set_write_buffer_size(&mut self, size: usize)
        ensures
            *final(self) == (Options { write_buffer_size: size, ..*old(self) }),
    {
        self.write_buffer_size = size;
    }

    pub fn set_max_write_buffer_number(&mut self, num: i32)
        ensures
            *final(self) == (Options { max_write_buffer_number: num, ..*old(self) }),
    {
        self.max_write_buffer_number = num;
    }

    pub fn set_min_write_buffer_number_to_merge(&mut self, num: i32)
        ensures
            *final(self) == (Options { min_write_buffer_number_to_merge: num, ..*old(self) }),
    {
        self.min_write_buffer_number_to_merge = num;
    }

    pub fn set_max_bytes_for_level_base(&mut self, bytes: u64)
        ensures
            *final(self) == (Options { max_bytes_for_level_base: bytes, ..*old(self) }),
    {
        self.max_bytes_for_level_base = bytes;
    }

    pub fn set_target_file_size_base(&mut self, size: u64)
        ensures
            *final(self) == (Options { target_file_size_base: size, ..*old(self) }),
    {
        self.target_file_size_base = size;
    }

    pub fn set_target_file_size_multiplier(&mut self, size: i32)
        ensures
            *final(self) == (Options { target_file_size_multiplier: size, ..*old(self) }),
    {
        self.target_file_size_multiplier = size;
    }

    pub fn set_level_zero_file_num_compaction_trigger(&mut self, num: i32)
        ensures
            *final(self) == (Options { level_zero_file_num_compaction_trigger: num, ..*old(self) }),
    {
        self.level_zero_file_num_compaction_trigger = num;
    }

    pub fn set_max_background_jobs(&mut self, num: i32)
        ensures
            *final(self) == (Options { max_background_jobs: num, ..*old(self) }),
    {
        self.max_background_jobs = num;
    }

    pub fn set_wal_ttl_seconds(&mut self, num: u64)
        ensures
            *final(self) == (Options { wal_ttl_seconds: num, ..*old(self) }),
    {
        self.wal_ttl_seconds = num;
    }

    pub fn set_wal_size_limit_mb(&mut self, num: u64)
        ensures
            *final(self) == (Options { wal_size_limit_mb: num, ..*old(self) }),
    {
        self.wal_size_limit_mb = num;
    }

    pub fn set_wal_dir(&mut self, path: &str)
        ensures
            final(self).wal_dir@ == path.spec_bytes(),
    {
        self.wal_dir = vstd::slice::slice_to_vec(path.as_bytes());
    }

    pub fn set_cache_capacity(&mut self, num: usize)
        ensures
            *final(self) == (Options { cache_capacity: num, ..*old(self) }),
    {
        self.cache_capacity = num;
    }
}

} // verus!
