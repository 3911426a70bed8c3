//! Network interfaces by name.

use vstd::prelude::*;

use crate::text::same;

verus! {

/// A network interface as the system lists it.
#[derive(Clone, Debug)]
pub struct NetworkInterface {
    pub name: String,
    pub index: u32,
}

/// A network interface that eBPF programs can be attached to.
#[derive(Clone, Debug)]
pub struct Interface {
    pub name: String,
    /// Never zero, and signed since that is what libbpf takes.
    pub index: i32,
}

/// Why there is no interface to attach to.
#[derive(Clone, Copy, Debug, PartialEq, Eq, Structural)]
pub enum LookupError {
    NotFound,
    IndexTooLarge(u32),
    ZeroIndex,
}

/// The index of the first interface with the given name.
pub open spec fn index_of(list: Seq<NetworkInterface>, name: Seq<char>) -> Option<u32>
    decreases list.len(),
{
    if list.len() == 0 {
        None
    } else if list[0].name@ == name {
        Some(list[0].index)
    } else {
        index_of(list.drop_first(), name)
    }
}

/// The index under which an interface is found, if it can be attached to.
pub open spec fn attach_index(index: Option<u32>) -> Result<i32, LookupError> {
    match index {
        None => Err(LookupError::NotFound),
        Some(index) => if index > i32::MAX {
            Err(LookupError::IndexTooLarge(index))
        } else if index == 0 {
            Err(LookupError::ZeroIndex)
        } else {
            Ok(index as i32)
        },
    }
}

impl Interface {
    /// The first of the listed interfaces that has the given name.
    pub fn lookup(ifaces: &Vec<NetworkInterface>, name: &str) -> (r: Result<
        Interface,
        LookupError,
    >)
        ensures
            match r {
                Ok(iface) => iface.name@ == name@ && attach_index(index_of(ifaces@, name@))
                    == Ok::<i32, LookupError>(iface.index) && iface.index > 0,
                Err(e) => attach_index(index_of(ifaces@, name@)) == Err::<i32, LookupError>(e),
            },
    {
        let mut i: usize = 0;
        assert(ifaces@.skip(0) =~= ifaces@);
        while i < ifaces.len()
            invariant
                i <= ifaces@.len(),
                index_of(ifaces@, name@) == index_of(ifaces@.skip(i as int), name@),
            decreases ifaces@.len() - i,
        {
            assert(ifaces@.skip(i as int).drop_first() =~= ifaces@.skip(i + 1));
            if same(ifaces[i].name.as_str(), name) {
                let index: u32 = ifaces[i].index;
                // libbpf takes the index as a signed number.
                if index > 0x7fff_ffff {
                    return Err(LookupError::IndexTooLarge(index));
                }
                if index == 0 {
                    return Err(LookupError::ZeroIndex);
                }
                return Ok(Interface { name: name.to_owned(), index: index as i32 });
            }
            i += 1;
        }
        Err(LookupError::NotFound)
    }
}

/// The index of an interface is that of the first one with its name, wherever it
/// stands in the list.
pub proof fn law_first_of_the_name(list: Seq<NetworkInterface>, name: Seq<char>, i: int)
    requires
        0 <= i < list.len(),
        list[i].name@ == name,
        forall|k: int| 0 <= k < i ==> (#[trigger] list[k]).name@ != name,
    ensures
        index_of(list, name) == Some(list[i].index),
    decreases i,
{
    if i > 0 {
        let rest = list.drop_first();
        assert(list[0].name@ != name);
        assert forall|k: int| 0 <= k < i - 1 implies (#[trigger] rest[k]).name@ != name by {
            assert(rest[k] == list[k + 1]);
        }
        law_first_of_the_name(rest, name, i - 1);
    }
}

/// A name that no interface has is not found.
pub proof fn law_unknown_name(list: Seq<NetworkInterface>, name: Seq<char>)
    requires
        forall|k: int| 0 <= k < list.len() ==> (#[trigger] list[k]).name@ != name,
    ensures
        index_of(list, name) is None,
        attach_index(index_of(list, name)) == Err::<i32, LookupError>(LookupError::NotFound),
    decreases list.len(),
{
    if list.len() > 0 {
        let rest = list.drop_first();
        assert(list[0].name@ != name);
        assert forall|k: int| 0 <= k < rest.len() implies (#[trigger] rest[k]).name@ != name by {
            assert(rest[k] == list[k + 1]);
        }
        law_unknown_name(rest, name);
    }
}

/// Every index from one to the largest signed number can be attached to, and it
/// stays as it is; any other is refused.
pub proof fn law_usable_indices(index: u32)
    ensures
        1 <= index <= 0x7fff_ffff ==> attach_index(Some(index)) is Ok && attach_index(
            Some(index),
        )->Ok_0 == index,
        index == 0 ==> attach_index(Some(index)) == Err::<i32, LookupError>(LookupError::ZeroIndex),
        index > 0x7fff_ffff ==> attach_index(Some(index)) == Err::<i32, LookupError>(
            LookupError::IndexTooLarge(index),
        ),
{
}

} // verus!
