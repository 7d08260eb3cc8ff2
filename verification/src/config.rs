//! Pool configuration and its rules.
use vstd::prelude::*;

use crate::error::TurbineError;
use crate::text::push_decimal;

verus! {

/// `n` is one of 1, 2, 4, 8, ...
pub open spec fn is_power_of_two(n: int) -> bool {
    exists|k: nat| n == #[trigger] vstd::arithmetic::power2::pow2(k)
}

/// A non-zero number shares no bit with its predecessor exactly when it is a
/// power of two.
pub proof fn power_of_two_by_mask(n: usize)
    requires
        n != 0,
    ensures
        is_power_of_two(n as int) <==> n & ((n - 1) as usize) == 0,
    decreases n,
{
    if n == 1 {
        vstd::arithmetic::power2::lemma2_to64();
        assert(n == vstd::arithmetic::power2::pow2(0));
        assert(1usize & 0usize == 0) by (bit_vector);
    } else {
        let h: usize = n / 2;
        power_of_two_by_mask(h);
        if n & ((n - 1) as usize) == 0 {
            assert(n % 2 == 0 && h & ((h - 1) as usize) == 0) by (bit_vector)
                requires
                    n & ((n - 1) as usize) == 0,
                    n > 1,
                    h == n / 2,
            ;
            let k = choose|k: nat| h as int == #[trigger] vstd::arithmetic::power2::pow2(k);
            vstd::arithmetic::power2::lemma_pow2_unfold((k + 1) as nat);
            assert(n as int == vstd::arithmetic::power2::pow2((k + 1) as nat));
        }
        if is_power_of_two(n as int) {
            let k = choose|k: nat| n as int == #[trigger] vstd::arithmetic::power2::pow2(k);
            vstd::arithmetic::power2::lemma2_to64();
            assert(k != 0);
            vstd::arithmetic::power2::lemma_pow2_unfold(k);
            assert(h as int == vstd::arithmetic::power2::pow2((k - 1) as nat));
            assert(n % 2 == 0);
            assert(n & ((n - 1) as usize) == 0) by (bit_vector)
                requires
                    n % 2 == 0,
                    h & ((h - 1) as usize) == 0,
                    n > 1,
                    h == n / 2,
            ;
        }
    }
}

/// Configuration for an
/// [`IouringBufferPool`](crate::buffer::pool::IouringBufferPool).
#[derive(Debug, Clone)]
pub struct PoolConfig {
    /// Size of each arena in bytes. Must be a multiple of the page size.
    pub arena_size: usize,
    /// Number of arenas to allocate at startup. Minimum 1.
    pub initial_arenas: usize,
    /// Maximum number of arenas to keep in the free pool before unmapping.
    pub max_free_arenas: usize,
    /// Hard cap on total arenas. 0 means unlimited.
    pub max_total_arenas: usize,
    /// Number of io_uring registration slots. At least `initial_arenas` and at
    /// most 64: the slots are kept in one word.
    pub registration_slots: usize,
    /// Page size for memory alignment. Must be a power of two.
    pub page_size: usize,
}

impl Default for PoolConfig {
    fn default() -> (r: Self)
        ensures
            r.arena_size == 2 * 1024 * 1024,
            r.initial_arenas == 4,
            r.max_free_arenas == 4,
            r.max_total_arenas == 0,
            r.registration_slots == 32,
            r.page_size == 4096,
            r.valid(),
    {
        proof {
            vstd::arithmetic::power2::lemma2_to64();
            assert(4096int == vstd::arithmetic::power2::pow2(12));
        }
        Self {
            arena_size: 2 * 1024 * 1024,
            initial_arenas: 4,
            max_free_arenas: 4,
            max_total_arenas: 0,
            registration_slots: 32,
            page_size: 4096,
        }
    }
}

impl PoolConfig {
    /// Every rule that a configuration has to meet.
    pub open spec fn valid(&self) -> bool {
        &&& self.initial_arenas >= 1
        &&& is_power_of_two(self.page_size as int)
        &&& self.arena_size > 0
        &&& self.arena_size as int % self.page_size as int == 0
        &&& self.registration_slots >= self.initial_arenas
        &&& self.registration_slots <= 64
    }

    /// The sentence about the first broken rule, in the order in which the
    /// rules are checked.
    pub open spec fn broken_rule(&self) -> Seq<char> {
        if self.initial_arenas < 1 {
            "initial_arenas must be >= 1"@
        } else if !is_power_of_two(self.page_size as int) {
            "page_size ("@ + crate::text::decimal(self.page_size as nat)
                + ") must be a power of two"@
        } else if self.arena_size == 0 {
            "arena_size must be > 0"@
        } else if self.arena_size as int % self.page_size as int != 0 {
            "arena_size ("@ + crate::text::decimal(self.arena_size as nat)
                + ") must be a multiple of page_size ("@
                + crate::text::decimal(self.page_size as nat) + ")"@
        } else if self.registration_slots < self.initial_arenas {
            "registration_slots ("@ + crate::text::decimal(self.registration_slots as nat)
                + ") must be >= initial_arenas ("@
                + crate::text::decimal(self.initial_arenas as nat) + ")"@
        } else {
            "registration_slots ("@ + crate::text::decimal(self.registration_slots as nat)
                + ") must be <= 64"@
        }
    }

    /// Checks every rule; the error names the first one that is broken.
    pub fn validate(&self) -> (r: Result<(), TurbineError>)
        ensures
            r is Ok <==> self.valid(),
            r matches Err(e) ==> (e matches TurbineError::InvalidConfig(rule) && rule@
                == self.broken_rule()),
    {
        if self.initial_arenas < 1 {
            return Err(TurbineError::InvalidConfig("initial_arenas must be >= 1".to_owned()));
        }
        proof {
            if self.page_size != 0 {
                power_of_two_by_mask(self.page_size);
            } else {
                assert forall|k: nat| self.page_size as int
                    != #[trigger] vstd::arithmetic::power2::pow2(k) by {
                    vstd::arithmetic::power2::lemma_pow2_pos(k);
                }
            }
        }
        if self.page_size == 0 || (self.page_size & (self.page_size - 1)) != 0 {
            let mut rule = String::new();
            rule.append("page_size (");
            push_decimal(&mut rule, self.page_size as u64);
            rule.append(") must be a power of two");
            assert(rule@ =~= self.broken_rule());
            return Err(TurbineError::InvalidConfig(rule));
        }
        if self.arena_size == 0 {
            return Err(TurbineError::InvalidConfig("arena_size must be > 0".to_owned()));
        }
        if self.arena_size % self.page_size != 0 {
            let mut rule = String::new();
            rule.append("arena_size (");
            push_decimal(&mut rule, self.arena_size as u64);
            rule.append(") must be a multiple of page_size (");
            push_decimal(&mut rule, self.page_size as u64);
            rule.append(")");
            assert(rule@ =~= self.broken_rule());
            return Err(TurbineError::InvalidConfig(rule));
        }
        if self.registration_slots < self.initial_arenas {
            let mut rule = String::new();
            rule.append("registration_slots (");
            push_decimal(&mut rule, self.registration_slots as u64);
            rule.append(") must be >= initial_arenas (");
            push_decimal(&mut rule, self.initial_arenas as u64);
            rule.append(")");
            assert(rule@ =~= self.broken_rule());
            return Err(TurbineError::InvalidConfig(rule));
        }
        if self.registration_slots > 64 {
            let mut rule = String::new();
            rule.append("registration_slots (");
            push_decimal(&mut rule, self.registration_slots as u64);
            rule.append(") must be <= 64");
            assert(rule@ =~= self.broken_rule());
            return Err(TurbineError::InvalidConfig(rule));
        }
        Ok(())
    }
}

impl PoolConfig {
    /// A configuration is accepted exactly if it asks for an arena, pages are a
    /// power of two, an arena is one or more whole pages, and there is a slot for
    /// every initial arena, but no more than 64 slots.
    pub proof fn accepted_configurations(self)
        ensures
            self.valid() <==> {
                &&& self.initial_arenas > 0
                &&& exists|k: nat|
                    self.page_size as int == #[trigger] vstd::arithmetic::power2::pow2(k)
                &&& exists|pages: nat|
                    pages > 0 && self.arena_size == #[trigger] (pages * self.page_size)
                &&& self.initial_arenas <= self.registration_slots <= 64
            },
    {
        let page = self.page_size as int;
        let size = self.arena_size as int;
        if exists|k: nat| page == #[trigger] vstd::arithmetic::power2::pow2(k) {
            let k = choose|k: nat| page == #[trigger] vstd::arithmetic::power2::pow2(k);
            vstd::arithmetic::power2::lemma_pow2_pos(k);
            vstd::arithmetic::div_mod::lemma_fundamental_div_mod(size, page);
            if size > 0 && size % page == 0 {
                let pages = (size / page) as nat;
                vstd::arithmetic::div_mod::lemma_div_pos_is_pos(size, page);
                assert(page * (size / page) == pages * self.page_size) by (nonlinear_arith)
                    requires
                        pages == size / page,
                        page == self.page_size,
                ;
                assert(pages > 0) by (nonlinear_arith)
                    requires
                        size > 0,
                        size == page * (size / page),
                        pages == size / page,
                        page > 0,
                ;
            }
            if exists|pages: nat|
                pages > 0 && self.arena_size == #[trigger] (pages * self.page_size) {
                let pages = choose|pages: nat|
                    pages > 0 && self.arena_size == #[trigger] (pages * self.page_size);
                vstd::arithmetic::div_mod::lemma_mod_multiples_basic(pages as int, page);
                assert(pages * self.page_size > 0) by (nonlinear_arith)
                    requires
                        pages > 0,
                        self.page_size > 0,
                ;
            }
        }
    }

    /// The error about a configuration names the first rule that it breaks, with
    /// the numbers that break it.
    pub proof fn first_broken_rule_is_named(self)
        ensures
            ({
                let pages = exists|k: nat|
                    self.page_size as int == #[trigger] vstd::arithmetic::power2::pow2(k);
                let page = crate::text::decimal(self.page_size as nat);
                let size = crate::text::decimal(self.arena_size as nat);
                let slots = crate::text::decimal(self.registration_slots as nat);
                let arenas = crate::text::decimal(self.initial_arenas as nat);
                let whole = self.arena_size as int % self.page_size as int == 0;
                &&& self.initial_arenas == 0 ==> self.broken_rule()
                    == "initial_arenas must be >= 1"@
                &&& self.initial_arenas > 0 && !pages ==> self.broken_rule() == "page_size ("@
                    + page + ") must be a power of two"@
                &&& self.initial_arenas > 0 && pages && self.arena_size == 0 ==> self.broken_rule()
                    == "arena_size must be > 0"@
                &&& self.initial_arenas > 0 && pages && self.arena_size > 0 && !whole
                    ==> self.broken_rule() == "arena_size ("@ + size
                    + ") must be a multiple of page_size ("@ + page + ")"@
                &&& self.initial_arenas > 0 && pages && self.arena_size > 0 && whole
                    && self.registration_slots < self.initial_arenas ==> self.broken_rule()
                    == "registration_slots ("@ + slots + ") must be >= initial_arenas ("@ + arenas
                    + ")"@
                &&& self.initial_arenas > 0 && pages && self.arena_size > 0 && whole
                    && self.registration_slots >= self.initial_arenas && self.registration_slots
                    > 64 ==> self.broken_rule() == "registration_slots ("@ + slots
                    + ") must be <= 64"@
            }),
    {
    }
}

} // verus!
