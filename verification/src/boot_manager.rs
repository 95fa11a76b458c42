//! The boot manager: selects the `Boot####` variables by name, decodes
//! each as a load option, keeps them sorted ascending by index next to the
//! decoded boot order, and computes the next free index.

use vstd::prelude::*;
use vstd::seq_lib::group_to_multiset_ensures;

use crate::boot_order::EfiBootOrder;
use crate::boot_order::spec_decode_boot_order;
use crate::errors::BootVarError;
use crate::load_option::EfiLoadOption;
use crate::load_option::LoadOptionModel;
use crate::load_option::spec_decode_load_option;

verus! {

/// The value of one hexadecimal digit, upper or lower case.
pub open spec fn spec_hex_val(u: u16) -> Option<int> {
    if 0x30 <= u <= 0x39 {
        Some(u as int - 0x30)
    } else if 0x41 <= u <= 0x46 {
        Some(u as int - 0x41 + 10)
    } else if 0x61 <= u <= 0x66 {
        Some(u as int - 0x61 + 10)
    } else {
        None
    }
}

/// The index carried by a variable name: `Some` exactly when the name is
/// `Boot` followed by exactly four hexadecimal digits, and then the value
/// of those digits read base-16.
pub open spec fn spec_boot_var_index(name: Seq<u16>) -> Option<int> {
    if name.len() == 8 && name[0] == 0x42 && name[1] == 0x6F && name[2] == 0x6F && name[3] == 0x74
        && spec_hex_val(name[4]) is Some && spec_hex_val(name[5]) is Some && spec_hex_val(name[6])
        is Some && spec_hex_val(name[7]) is Some {
        Some(
            spec_hex_val(name[4])->Some_0 * 0x1000 + spec_hex_val(name[5])->Some_0 * 0x100
                + spec_hex_val(name[6])->Some_0 * 0x10 + spec_hex_val(name[7])->Some_0,
        )
    } else {
        None
    }
}

/// The value of one hexadecimal digit code unit, if it is one.
fn hex_val(u: u16) -> (r: Option<u16>)
    ensures
        match r {
            Some(v) => spec_hex_val(u) == Some(v as int) && v < 16,
            None => spec_hex_val(u) is None,
        },
{
    if 0x30 <= u && u <= 0x39 {
        Some(u - 0x30)
    } else if 0x41 <= u && u <= 0x46 {
        Some(u - 0x41 + 10)
    } else if 0x61 <= u && u <= 0x66 {
        Some(u - 0x61 + 10)
    } else {
        None
    }
}

/// The index carried by a variable name given as UCS-2 code units: `Some`
/// exactly for `Boot` followed by four hexadecimal digits. These are the
/// names under which load options are persisted.
pub fn boot_var_index(name: &[u16]) -> (r: Option<usize>)
    ensures
        match r {
            Some(i) => spec_boot_var_index(name@) == Some(i as int),
            None => spec_boot_var_index(name@) is None,
        },
{
    if name.len() != 8 {
        return None;
    }
    if !(name[0] == 0x42 && name[1] == 0x6F && name[2] == 0x6F && name[3] == 0x74) {
        return None;
    }
    let d0 = match hex_val(name[4]) {
        Some(v) => v,
        None => {
            return None;
        },
    };
    let d1 = match hex_val(name[5]) {
        Some(v) => v,
        None => {
            return None;
        },
    };
    let d2 = match hex_val(name[6]) {
        Some(v) => v,
        None => {
            return None;
        },
    };
    let d3 = match hex_val(name[7]) {
        Some(v) => v,
        None => {
            return None;
        },
    };
    Some((d0 * 0x1000 + d1 * 0x100 + d2 * 0x10 + d3) as usize)
}

/// The pair sequence that a sequence of indexed load options stands for.
pub open spec fn opts_models(s: Seq<(usize, EfiLoadOption)>) -> Seq<(usize, LoadOptionModel)> {
    s.map_values(|p: (usize, EfiLoadOption)| (p.0, p.1@))
}

/// Entries ordered ascending by their stored index.
pub open spec fn sorted_by_index(s: Seq<(usize, EfiLoadOption)>) -> bool {
    forall|i: int, j: int| 0 <= i < j < s.len() ==> #[trigger] s[i].0 <= #[trigger] s[j].0
}

/// Every entry's raw value decodes as a load option.
pub open spec fn spec_entries_ok(es: Seq<(usize, Vec<u8>)>) -> bool {
    forall|i: int| 0 <= i < es.len() ==> spec_decode_load_option(#[trigger] es[i].1@) is Ok
}

/// The decoded value of each entry, with its index.
pub open spec fn spec_entries_models(es: Seq<(usize, Vec<u8>)>) -> Seq<(usize, LoadOptionModel)> {
    es.map_values(|e: (usize, Vec<u8>)| (e.0, spec_decode_load_option(e.1@)->Ok_0))
}

/// The boot manager: all persisted boot entries, sorted ascending by
/// index, and the decoded boot order.
pub struct EfiBootManager {
    /// The decoded entries as `(index, load option)` pairs, sorted
    /// ascending by index.
    pub boot_options: Vec<(usize, EfiLoadOption)>,
    /// The decoded boot order.
    pub boot_order: EfiBootOrder,
}

impl EfiBootManager {
    /// The manager's invariant: the entries stay sorted by index.
    pub open spec fn wf(&self) -> bool {
        sorted_by_index(self.boot_options@)
    }

    /// Build the manager from the raw `BootOrder` value and the raw values
    /// of the `Boot####` variables, each already paired with the index its
    /// name carries (see `boot_var_index`).
    ///
    /// Any single decode failure aborts construction with that entry's
    /// error, the first in the given order; a corrupt persisted record is a
    /// data-integrity problem, not noise to skip. On success the entries
    /// are exactly the given ones, sorted ascending by index.
    pub fn new_from_variables(boot_order_value: &[u8], boot_entries: &Vec<(usize, Vec<u8>)>) -> (r:
        Result<EfiBootManager, BootVarError>)
        ensures
            match r {
                Ok(m) => {
                    &&& spec_decode_boot_order(boot_order_value@) == Result::<
                        Seq<u16>,
                        BootVarError,
                    >::Ok(m.boot_order@)
                    &&& spec_entries_ok(boot_entries@)
                    &&& m.wf()
                    &&& opts_models(m.boot_options@).to_multiset() == spec_entries_models(
                        boot_entries@,
                    ).to_multiset()
                },
                Err(e) => match spec_decode_boot_order(boot_order_value@) {
                    Result::Err(e2) => e == e2,
                    Result::Ok(_) => exists|i: int|
                        0 <= i < boot_entries@.len() && spec_decode_load_option(
                            #[trigger] boot_entries@[i].1@,
                        ) == Result::<LoadOptionModel, BootVarError>::Err(e) && (forall|j: int|
                            0 <= j < i ==> spec_decode_load_option(#[trigger] boot_entries@[j].1@)
                                is Ok),
                },
            },
    {
        broadcast use group_to_multiset_ensures;

        let boot_order = match EfiBootOrder::new_from_variable(boot_order_value) {
            Err(e) => {
                return Err(e);
            },
            Ok(o) => o,
        };
        let mut opts: Vec<(usize, EfiLoadOption)> = Vec::new();
        let mut i: usize = 0;
        while i < boot_entries.len()
            invariant
                i <= boot_entries@.len(),
                spec_decode_boot_order(boot_order_value@) is Ok,
                forall|j: int|
                    0 <= j < i ==> spec_decode_load_option(#[trigger] boot_entries@[j].1@) is Ok,
                opts@.len() == i,
                forall|j: int|
                    0 <= j < i ==> (#[trigger] opts@[j]).0 == boot_entries@[j].0 && opts@[j].1@
                        == spec_decode_load_option(boot_entries@[j].1@)->Ok_0,
            decreases boot_entries@.len() - i,
        {
            let entry = &boot_entries[i];
            match EfiLoadOption::try_from(entry.1.as_slice()) {
                Err(e) => {
                    proof {
                        assert(spec_decode_load_option(boot_entries@[i as int].1@) == Result::<
                            LoadOptionModel,
                            BootVarError,
                        >::Err(e));
                    }
                    return Err(e);
                },
                Ok(o) => {
                    opts.push((entry.0, o));
                },
            }
            i = i + 1;
        }
        proof {
            assert(opts_models(opts@) =~= spec_entries_models(boot_entries@));
        }
        let ghost total = spec_entries_models(boot_entries@).to_multiset();

        // Sort ascending by index: repeatedly move the least remaining
        // entry over.
        let mut sorted: Vec<(usize, EfiLoadOption)> = Vec::new();
        proof {
            assert(opts_models(sorted@).to_multiset().add(opts_models(opts@).to_multiset()) =~=
                total);
        }
        while opts.len() > 0
            invariant
                sorted_by_index(sorted@),
                forall|a: int, b: int|
                    0 <= a < sorted@.len() && 0 <= b < opts@.len() ==> #[trigger] sorted@[a].0
                        <= #[trigger] opts@[b].0,
                opts_models(sorted@).to_multiset().add(opts_models(opts@).to_multiset()) == total,
            decreases opts@.len(),
        {
            let mut m: usize = 0;
            let mut k: usize = 1;
            while k < opts.len()
                invariant
                    m < k <= opts@.len(),
                    opts@.len() > 0,
                    forall|t: int| 0 <= t < k ==> opts@[m as int].0 <= #[trigger] opts@[t].0,
                decreases opts@.len() - k,
            {
                if opts[k].0 < opts[m].0 {
                    m = k;
                }
                k = k + 1;
            }
            let ghost opts_before = opts@;
            let ghost sorted_before = sorted@;
            let x = opts.remove(m);
            proof {
                opts_models(opts_before).to_multiset_ensures();
                opts_models(sorted_before).to_multiset_ensures();
                assert(opts_models(opts_before.remove(m as int)) =~= opts_models(
                    opts_before,
                ).remove(m as int));
                assert(opts_models(opts_before).remove(m as int).to_multiset() =~= opts_models(
                    opts_before,
                ).to_multiset().remove(opts_models(opts_before)[m as int]));
                assert(opts_models(sorted_before.push(x)) =~= opts_models(sorted_before).push(
                    (x.0, x.1@)));
                assert(opts_models(opts_before)[m as int] == (x.0, x.1@));
                assert(opts_models(opts_before).contains((x.0, x.1@)));
                assert(opts_models(opts_before).to_multiset().count((x.0, x.1@)) > 0);
            }
            sorted.push(x);
            proof {
                assert(opts_models(sorted@).to_multiset().add(opts_models(opts@).to_multiset())
                    =~= total);
                assert(forall|b: int|
                    0 <= b < opts@.len() ==> x.0 <= #[trigger] opts@[b].0) by {
                    assert(forall|b: int|
                        0 <= b < opts@.len() ==> opts@[b] == opts_before[if b < m as int {
                            b
                        } else {
                            b + 1
                        }]);
                }
            }
        }
        proof {
            assert(opts_models(opts@) =~= Seq::<(usize, LoadOptionModel)>::empty());
            assert(opts_models(sorted@).to_multiset().add(
                Seq::<(usize, LoadOptionModel)>::empty().to_multiset(),
            ) =~= opts_models(sorted@).to_multiset());
        }
        Ok(EfiBootManager { boot_options: sorted, boot_order })
    }

    /// The lowest unused non-negative index, for entries examined in
    /// ascending index order: zero when there are no entries; the count
    /// when the entries are a dense run starting at zero (append); else
    /// the first position whose stored index differs from it. The error is
    /// defined but unreachable for entries this type holds.
    pub fn get_next_available_boot_index(&self) -> (r: Result<usize, BootVarError>)
        ensures
            match r {
                Ok(k) => {
                    ||| (self.boot_options@.len() == 0 && k == 0)
                    ||| (self.boot_options@.len() > 0 && self.boot_options@.last().0
                        == self.boot_options@.len() - 1 && k == self.boot_options@.len())
                    ||| (self.boot_options@.len() > 0 && self.boot_options@.last().0
                        != self.boot_options@.len() - 1 && k < self.boot_options@.len()
                        && self.boot_options@[k as int].0 != k && (forall|j: int|
                        0 <= j < k ==> #[trigger] self.boot_options@[j].0 == j))
                },
                Err(e) => {
                    &&& e == BootVarError::NoAvailableIndex
                    &&& self.boot_options@.len() > 0
                    &&& self.boot_options@.last().0 != self.boot_options@.len() - 1
                    &&& forall|j: int|
                        0 <= j < self.boot_options@.len() ==> #[trigger] self.boot_options@[j].0
                            == j
                },
            },
    {
        let n = self.boot_options.len();
        if n == 0 {
            return Ok(0);
        }
        if self.boot_options[n - 1].0 == n - 1 {
            return Ok(n);
        }
        let mut i: usize = 0;
        while i < n
            invariant
                i <= n,
                n == self.boot_options@.len(),
                n > 0,
                self.boot_options@[n - 1].0 != n - 1,
                forall|j: int| 0 <= j < i ==> #[trigger] self.boot_options@[j].0 == j,
            decreases n - i,
        {
            if self.boot_options[i].0 != i {
                proof {
                    assert(self.boot_options@.last() == self.boot_options@[n as int - 1]);
                }
                return Ok(i);
            }
            i = i + 1;
        }
        Err(BootVarError::NoAvailableIndex)
    }
}

} // verus!
