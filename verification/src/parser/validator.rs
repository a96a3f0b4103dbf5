//! Checks on the ids of section items and on references between items.
use crate::error::{outcome, InputError};
use crate::instance::HasId;
use crate::text::{append_decimal, decimal};
use vstd::prelude::*;

verus! {

broadcast use vstd::string::group_string_axioms;

pub open spec fn msg_id_must_start_at_zero(section: Seq<char>) -> Seq<char> {
    "The "@ + section + " id must start with 0"@
}

pub open spec fn msg_id_not_sequential(section: Seq<char>, id: usize) -> Seq<char> {
    section + " id "@ + decimal(id as nat) + " need be sequential"@
}

pub open spec fn msg_missing_item(container_name: Seq<char>, item_id: usize) -> Seq<char> {
    "Integrity error: "@ + container_name + " ID "@ + decimal(item_id as nat) + " does not exist."@
}

/// The id `id` may follow `last_id` (-1 before the first item): ids start at 0
/// and go up by one.
pub open spec fn spec_validate_section_data_id(section: Seq<char>, id: usize, last_id: int) -> Result<
    (),
    Seq<char>,
> {
    if id > 0 && last_id + 1 == 0 {
        Err(msg_id_must_start_at_zero(section))
    } else if (id as isize) != last_id + 1 {
        Err(msg_id_not_sequential(section, id))
    } else {
        Ok(())
    }
}

/// The same check with the expected id given directly: `next` items have
/// been read so far.
pub open spec fn spec_check_next_id(section: Seq<char>, id: usize, next: nat) -> Result<
    (),
    Seq<char>,
> {
    if id > 0 && next == 0 {
        Err(msg_id_must_start_at_zero(section))
    } else if id != next {
        Err(msg_id_not_sequential(section, id))
    } else {
        Ok(())
    }
}

/// Item `item_id` exists: it is listed at position `item_id`.
pub open spec fn spec_validate_item_id(container_name: Seq<char>, ids: Seq<usize>, item_id: usize) -> Result<
    (),
    Seq<char>,
> {
    if item_id < ids.len() && ids[item_id as int] == item_id {
        Ok(())
    } else {
        Err(msg_missing_item(container_name, item_id))
    }
}

/// The ids of a list of items.
pub open spec fn ids_of<T: HasId>(items: Seq<T>) -> Seq<usize> {
    items.map_values(|t: T| t.spec_id())
}

/// Both forms of the sequence check agree while the ids fit in `isize`:
/// checking an id against the count of items read, or against the id of the
/// last item (-1 before the first).
pub proof fn lemma_check_next_id_agrees(section: Seq<char>, id: usize, next: nat)
    requires
        next <= isize::MAX,
        id <= isize::MAX,
    ensures
        spec_check_next_id(section, id, next) == spec_validate_section_data_id(
            section,
            id,
            next - 1,
        ),
{
    assert((id as isize) == id);
}

fn message_must_start_at_zero(section: &str) -> (m: String)
    ensures
        m@ == msg_id_must_start_at_zero(section@),
{
    let mut m = String::from_str("The ");
    m.append(section);
    m.append(" id must start with 0");
    assert(m@ =~= msg_id_must_start_at_zero(section@));
    m
}

fn message_not_sequential(section: &str, id: usize) -> (m: String)
    ensures
        m@ == msg_id_not_sequential(section@, id),
{
    let mut m = String::from_str(section);
    m.append(" id ");
    append_decimal(&mut m, id);
    m.append(" need be sequential");
    assert(m@ =~= msg_id_not_sequential(section@, id));
    m
}

/// Checks that `id` may follow the item with id `last_id` (-1 when the
/// section is still empty).
pub fn validate_section_data_id(section: &str, id: usize, last_id: isize) -> (r: Result<(), InputError>)
    requires
        last_id < isize::MAX,
    ensures
        outcome(r) == spec_validate_section_data_id(section@, id, last_id as int),
{
    if id > 0 && last_id + 1 == 0 {
        return Err(InputError::new(message_must_start_at_zero(section)));
    }
    if id as isize != last_id + 1 {
        return Err(InputError::new(message_not_sequential(section, id)));
    }
    Ok(())
}

/// Checks that `id` is the id due after `next` items.
pub fn check_next_id(section: &str, id: usize, next: usize) -> (r: Result<(), InputError>)
    ensures
        outcome(r) == spec_check_next_id(section@, id, next as nat),
{
    if id > 0 && next == 0 {
        return Err(InputError::new(message_must_start_at_zero(section)));
    }
    if id != next {
        return Err(InputError::new(message_not_sequential(section, id)));
    }
    Ok(())
}

/// Checks that the container holds item `item_id` at position `item_id`.
pub fn validate_item_id<T: HasId>(container_name: &str, container: &[T], item_id: usize) -> (r: Result<
    (),
    InputError,
>)
    ensures
        outcome(r) == spec_validate_item_id(container_name@, ids_of(container@), item_id),
{
    if item_id < container.len() && container[item_id].id() == item_id {
        return Ok(());
    }
    let mut m = String::from_str("Integrity error: ");
    m.append(container_name);
    m.append(" ID ");
    append_decimal(&mut m, item_id);
    m.append(" does not exist.");
    assert(m@ =~= msg_missing_item(container_name@, item_id));
    Err(InputError::new(m))
}

} // verus!
