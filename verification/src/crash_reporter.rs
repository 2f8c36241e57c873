//! What the last-chance crash reporter says about a fault.

use crate::text;
use vstd::prelude::*;

verus! {

/// What the system records of an exception.
pub struct ExceptionRecord {
    pub code: u32,
    pub address: usize,
    pub information: Vec<usize>,
}

/// A fault: its code, the faulting instruction, how memory was accessed and where.
#[derive(Clone, Copy, PartialEq, Eq, Structural, Debug)]
pub struct Fault {
    pub code: u32,
    pub address: usize,
    pub access: usize,
    pub data_address: usize,
}

/// The fault of a record; an access that is not recorded is unknown, and without a record nothing is
/// known.
pub fn fault_of(record: Option<&ExceptionRecord>) -> (r: Fault)
    ensures
        r == (match record {
            Some(rec) => Fault {
                code: rec.code,
                address: rec.address,
                access: if rec.information@.len() >= 2 {
                    rec.information@[0]
                } else {
                    usize::MAX
                },
                data_address: if rec.information@.len() >= 2 {
                    rec.information@[1]
                } else {
                    0
                },
            },
            None => Fault { code: 0, address: 0, access: usize::MAX, data_address: 0 },
        }),
{
    match record {
        Some(rec) => if rec.information.len() >= 2 {
            Fault {
                code: rec.code,
                address: rec.address,
                access: rec.information[0],
                data_address: rec.information[1],
            }
        } else {
            Fault { code: rec.code, address: rec.address, access: usize::MAX, data_address: 0 }
        },
        None => Fault { code: 0, address: 0, access: usize::MAX, data_address: 0 },
    }
}

/// The name of a way to access memory.
pub open spec fn access_name(access: usize) -> Seq<char> {
    if access == 0 {
        "READ"@
    } else if access == 1 {
        "WRITE"@
    } else if access == 8 {
        "DEP/EXEC"@
    } else {
        "?"@
    }
}

/// The name of a way to access memory.
fn access_kind(access: usize) -> (r: &'static str)
    ensures
        r@ == access_name(access),
{
    if access == 0 {
        "READ"
    } else if access == 1 {
        "WRITE"
    } else if access == 8 {
        "DEP/EXEC"
    } else {
        "?"
    }
}

/// The headline of a crash report.
pub fn headline(fault: Fault) -> (r: String)
    ensures
        r@ == "\n=== NATIVE CRASH: code=0x"@ + text::zero_padded(
            text::upper_hex(fault.code as nat),
            8,
        ) + " instr=0x"@ + text::upper_hex(fault.address as nat) + " "@ + access_name(fault.access)
            + " of data_addr=0x"@ + text::upper_hex(fault.data_address as nat) + " ==="@,
{
    let code = text::pad_zeros(text::upper_hex_text(fault.code as u64).as_str(), 8);
    let mut m = text::concat3("\n=== NATIVE CRASH: code=0x", code.as_str(), " instr=0x");
    m.append(text::upper_hex_text(fault.address as u64).as_str());
    m.append(" ");
    m.append(access_kind(fault.access));
    m.append(" of data_addr=0x");
    m.append(text::upper_hex_text(fault.data_address as u64).as_str());
    m.append(" ===");
    m
}

/// How the module that holds the faulting instruction is named: by its path, of which `length` code
/// units of the buffer are filled.
pub fn module_containing(found: bool, path: &Vec<u16>, length: usize) -> (r: String)
    requires
        length <= path@.len(),
    ensures
        !found ==> r@ == "<unknown module>"@,
        found && length == 0 ==> r@ == "<GetModuleFileNameW failed>"@,
        found && length > 0 ==> r@ == text::read_utf16(path@.take(length as int)),
{
    if !found {
        return "<unknown module>".to_owned();
    }
    if length == 0 {
        return "<GetModuleFileNameW failed>".to_owned();
    }
    let mut filled: Vec<u16> = Vec::new();
    for i in 0..length
        invariant
            length <= path@.len(),
            filled@ == path@.take(i as int),
    {
        filled.push(path[i]);
        assert(path@.take(i + 1) =~= path@.take(i as int).push(path@[i as int]));
    }
    text::from_utf16_lossy(&filled)
}

/// Zero is a read, one a write and eight an execution; no other access has a name.
pub proof fn law_accesses_have_names(access: usize)
    ensures
        access_name(0) == "READ"@,
        access_name(1) == "WRITE"@,
        access_name(8) == "DEP/EXEC"@,
        access != 0 && access != 1 && access != 8 ==> access_name(access) == "?"@,
{
}

/// A fault has the code and the address of its record, and the access and the data address where the
/// record has both; without a record nothing is known.
pub proof fn law_faults_are_what_was_recorded(record: Option<&ExceptionRecord>, r: Fault)
    requires
        call_ensures(fault_of, (record,), r),
    ensures
        record matches Some(e) ==> r.code == e.code && r.address == e.address,
        record matches Some(e) ==> (e.information@.len() >= 2 ==> r.access == e.information@[0]
            && r.data_address == e.information@[1]),
        record matches Some(e) ==> (e.information@.len() < 2 ==> r.access == usize::MAX
            && r.data_address == 0),
        record is None ==> r.code == 0 && r.address == 0 && r.access == usize::MAX && r.data_address
            == 0,
{
}

/// A headline has the code in eight hexadecimal digits, both addresses, and the access by name.
pub proof fn law_headlines_say_what_faulted(fault: Fault, r: String)
    requires
        call_ensures(headline, (fault,), r),
    ensures
        r@ == "\n=== NATIVE CRASH: code=0x"@ + text::zero_padded(
            text::upper_hex(fault.code as nat),
            8,
        ) + " instr=0x"@ + text::upper_hex(fault.address as nat) + " "@ + access_name(fault.access)
            + " of data_addr=0x"@ + text::upper_hex(fault.data_address as nat) + " ==="@,
{
}

/// A module is named by its path, as far as it was filled in.
pub proof fn law_modules_are_named_by_path(found: bool, path: &Vec<u16>, length: usize, r: String)
    requires
        call_ensures(module_containing, (found, path, length), r),
    ensures
        !found ==> r@ == "<unknown module>"@,
        found && length == 0 ==> r@ == "<GetModuleFileNameW failed>"@,
        found && length > 0 ==> r@ == text::read_utf16(path@.take(length as int)),
{
}

} // verus!
