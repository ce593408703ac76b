use vstd::prelude::*;

verus! {

/// A growth threshold expressed as the exact ratio
/// `numerator / denominator` of live entries to buckets.
#[derive(Clone, Copy, Debug, PartialEq, Eq, Structural)]
pub struct LoadFactor {
    pub numerator: u64,
    pub denominator: u64,
}

/// Tuning knobs for a map, each optional: an unset knob resolves to its
/// default during validation.
pub struct Options {
    pub initial_capacity: Option<usize>,
    pub load_factor: Option<LoadFactor>,
    pub dynamic_resizing: Option<bool>,
}

impl Default for Options {
    /// All knobs unset, so validation resolves every one to its default.
    fn default() -> (options: Self)
        ensures
            options.initial_capacity is None,
            options.load_factor is None,
            options.dynamic_resizing is None,
    {
        Options { initial_capacity: None, load_factor: None, dynamic_resizing: None }
    }
}

/// An immutable configuration that passed every validation rule.
#[derive(Clone, Copy, Debug)]
pub struct ValidatedOptions {
    initial_capacity: usize,
    load_factor: LoadFactor,
    dynamic_resizing: bool,
}

impl ValidatedOptions {
    pub closed spec fn initial_capacity_spec(&self) -> int {
        self.initial_capacity as int
    }

    pub closed spec fn load_factor_spec(&self) -> LoadFactor {
        self.load_factor
    }

    pub closed spec fn dynamic_resizing_spec(&self) -> bool {
        self.dynamic_resizing
    }

    /// What validation guarantees of every value it returns: a positive
    /// bucket count and a positive, well-defined load-factor ratio.
    pub open spec fn valid_spec(&self) -> bool {
        &&& self.initial_capacity_spec() >= 1
        &&& self.load_factor_spec().numerator >= 1
        &&& self.load_factor_spec().denominator >= 1
    }

    /// The bucket-array length a map starts with.
    pub fn initial_capacity(&self) -> (capacity: usize)
        ensures
            capacity as int == self.initial_capacity_spec(),
    {
        self.initial_capacity
    }

    /// The growth threshold ratio.
    pub fn load_factor(&self) -> (ratio: LoadFactor)
        ensures
            ratio == self.load_factor_spec(),
    {
        self.load_factor
    }

    /// Whether the map doubles its capacity on reaching the threshold.
    pub fn dynamic_resizing(&self) -> (enabled: bool)
        ensures
            enabled == self.dynamic_resizing_spec(),
    {
        self.dynamic_resizing
    }
}

impl Options {
    /// The rule on a set load factor: its numerator must not be zero.
    pub open spec fn load_factor_numerator_ok(&self) -> bool {
        match self.load_factor {
            Some(ratio) => ratio.numerator >= 1,
            None => true,
        }
    }

    /// The rule on a set load factor: its denominator must not be zero.
    pub open spec fn load_factor_denominator_ok(&self) -> bool {
        match self.load_factor {
            Some(ratio) => ratio.denominator >= 1,
            None => true,
        }
    }

    /// The rule on a set initial capacity: it must not be zero.
    pub open spec fn initial_capacity_ok(&self) -> bool {
        match self.initial_capacity {
            Some(capacity) => capacity >= 1,
            None => true,
        }
    }

    pub open spec fn all_ok(&self) -> bool {
        &&& self.load_factor_numerator_ok()
        &&& self.load_factor_denominator_ok()
        &&& self.initial_capacity_ok()
    }

    /// The messages validation reports, one per broken rule, in order.
    pub open spec fn expected_errors(&self) -> Seq<&'static str> {
        let base = Seq::<&'static str>::empty();
        let with_numerator = if !self.load_factor_numerator_ok() {
            base.push("Load factor cannot be zero or less")
        } else {
            base
        };
        let with_denominator = if !self.load_factor_denominator_ok() {
            with_numerator.push("Load factor denominator cannot be zero")
        } else {
            with_numerator
        };
        if !self.initial_capacity_ok() {
            with_denominator.push("Initial capacity cannot be zero")
        } else {
            with_denominator
        }
    }

    /// Checks every rule. When all pass, each unset knob resolves to its
    /// default (capacity 16, load factor 3/4, dynamic resizing on) and a
    /// validated configuration is returned; otherwise the full list of
    /// error messages is, and nothing else happens.
    pub fn validate(self) -> (outcome: Result<ValidatedOptions, Vec<&'static str>>)
        ensures
            outcome is Ok <==> self.all_ok(),
            match outcome {
                Ok(validated) => {
                    &&& validated.valid_spec()
                    &&& validated.initial_capacity_spec() == (match self.initial_capacity {
                        Some(capacity) => capacity as int,
                        None => 16,
                    })
                    &&& validated.load_factor_spec() == (match self.load_factor {
                        Some(ratio) => ratio,
                        None => LoadFactor { numerator: 3, denominator: 4 },
                    })
                    &&& validated.dynamic_resizing_spec() == (match self.dynamic_resizing {
                        Some(enabled) => enabled,
                        None => true,
                    })
                },
                Err(errors) => errors@ == self.expected_errors() && errors@.len() >= 1,
            },
    {
        let mut errors: Vec<&'static str> = Vec::new();
        if let Some(ratio) = self.load_factor {
            if ratio.numerator == 0 {
                errors.push("Load factor cannot be zero or less");
            }
            if ratio.denominator == 0 {
                errors.push("Load factor denominator cannot be zero");
            }
        }
        if let Some(capacity) = self.initial_capacity {
            if capacity == 0 {
                errors.push("Initial capacity cannot be zero");
            }
        }
        if errors.is_empty() {
            proof {
                assert(self.expected_errors().len() == 0);
                assert(self.all_ok());
            }
            let initial_capacity = match self.initial_capacity {
                Some(capacity) => capacity,
                None => 16,
            };
            let load_factor = match self.load_factor {
                Some(ratio) => ratio,
                None => LoadFactor { numerator: 3, denominator: 4 },
            };
            let dynamic_resizing = match self.dynamic_resizing {
                Some(enabled) => enabled,
                None => true,
            };
            Ok(ValidatedOptions { initial_capacity, load_factor, dynamic_resizing })
        } else {
            proof {
                assert(errors@ =~= self.expected_errors());
            }
            Err(errors)
        }
    }
}

} // verus!
