//! What all sections share: reading a section's items line by line, reading
//! references to items of other sections, and telling sections apart.
use crate::error::InputError;
use crate::instance::{item_views, HasId};
use crate::parser::utils::{
    get_split_line_parts, lemma_next_valid_line, next_valid_line, parse_integer,
    spec_parse_integer, spec_split_line_parts, LineTracker,
};
use crate::parser::validator::{
    check_next_id, ids_of, spec_check_next_id, spec_validate_item_id, validate_item_id,
};
use crate::text::{split_whitespace_str, split_ws, trim, trim_str, views};
use vstd::prelude::*;

verus! {

broadcast use vstd::string::group_string_axioms;

pub open spec fn msg_unknown_section(section: Seq<char>) -> Seq<char> {
    "Unknown section "@ + section
}

/// The name a section line opens: the trimmed text before its first `:`.
pub open spec fn section_name(line: Seq<char>) -> Seq<char> {
    trim(spec_split_line_parts(line)[0])
}

/// References to existing items: each an integer naming an item of `ids`.
pub open spec fn spec_parse_refs(parts: Seq<Seq<char>>, container_name: Seq<char>, ids: Seq<usize>) -> Result<
    Seq<usize>,
    Seq<char>,
>
    decreases parts.len(),
{
    if parts.len() == 0 {
        Ok(seq![])
    } else {
        match spec_parse_integer(parts[0]) {
            Err(m) => Err(m),
            Ok(r) => match spec_validate_item_id(container_name, ids, r) {
                Err(m) => Err(m),
                Ok(_) => match spec_parse_refs(parts.drop_first(), container_name, ids) {
                    Err(m) => Err(m),
                    Ok(rest) => Ok(seq![r] + rest),
                },
            },
        }
    }
}

/// An item outcome with the item's id beside its view.
pub open spec fn item_outcome<T: View + HasId>(r: Result<T, InputError>) -> Result<
    (T::V, usize),
    Seq<char>,
> {
    match r {
        Ok(t) => Ok((t@, t.spec_id())),
        Err(e) => Err(e.message@),
    }
}

/// Reading `remaining` items of a section from `s`, one per valid line, the
/// first of them due to have id `next`; the items read and what follows them.
pub open spec fn read_items<V>(
    s: Seq<char>,
    next: nat,
    remaining: nat,
    model: spec_fn(Seq<Seq<char>>) -> Result<(V, usize), Seq<char>>,
    section: Seq<char>,
) -> (Result<Seq<V>, Seq<char>>, Seq<char>)
    decreases remaining,
{
    if remaining == 0 {
        (Ok(seq![]), s)
    } else {
        let line = next_valid_line(s).0;
        let rest = next_valid_line(s).1;
        match model(split_ws(line)) {
            Err(m) => (Err(m), rest),
            Ok(item) => match spec_check_next_id(section, item.1, next) {
                Err(m) => (Err(m), rest),
                Ok(_) => {
                    let r = read_items(rest, next + 1, (remaining - 1) as nat, model, section);
                    (
                        match r.0 {
                            Ok(items) => Ok(seq![item.0] + items),
                            Err(m) => Err(m),
                        },
                        r.1,
                    )
                },
            },
        }
    }
}

/// The items that reading `remaining` items from `s` accepts before the
/// first line it refuses: all of them when it refuses none.
pub open spec fn accepted_items<V>(
    s: Seq<char>,
    next: nat,
    remaining: nat,
    model: spec_fn(Seq<Seq<char>>) -> Result<(V, usize), Seq<char>>,
    section: Seq<char>,
) -> Seq<V>
    decreases remaining,
{
    if remaining == 0 {
        Seq::empty()
    } else {
        let line = next_valid_line(s).0;
        let rest = next_valid_line(s).1;
        match model(split_ws(line)) {
            Err(_) => Seq::empty(),
            Ok(item) => match spec_check_next_id(section, item.1, next) {
                Err(_) => Seq::empty(),
                Ok(_) => seq![item.0] + accepted_items(rest, next + 1, (remaining - 1) as nat, model, section),
            },
        }
    }
}

/// Items read so far put before the outcome of reading the others.
pub open spec fn prepend_items<V>(done: Seq<V>, r: (Result<Seq<V>, Seq<char>>, Seq<char>)) -> (
    Result<Seq<V>, Seq<char>>,
    Seq<char>,
) {
    (
        match r.0 {
            Ok(items) => Ok(done + items),
            Err(m) => Err(m),
        },
        r.1,
    )
}

/// What follows the items read is no longer than the text.
pub proof fn lemma_read_items_rest<V>(
    s: Seq<char>,
    next: nat,
    remaining: nat,
    model: spec_fn(Seq<Seq<char>>) -> Result<(V, usize), Seq<char>>,
    section: Seq<char>,
)
    ensures
        read_items(s, next, remaining, model, section).1.len() <= s.len(),
    decreases remaining,
{
    if remaining > 0 {
        lemma_next_valid_line(s);
        let rest = next_valid_line(s).1;
        lemma_read_items_rest(rest, next + 1, (remaining - 1) as nat, model, section);
    }
}

/// Reads the items of a section into `container` until it holds `count`
/// items, one item per valid line; each item's id must be its position.
pub fn handle_section<T: HasId + View, F: Fn(Vec<&str>) -> Result<T, InputError>>(
    tracker: &mut LineTracker,
    container: &mut Vec<T>,
    count: usize,
    section_name: &str,
    parser: F,
    Ghost(model): Ghost<spec_fn(Seq<Seq<char>>) -> Result<(T::V, usize), Seq<char>>>,
) -> (r: Result<(), InputError>)
    requires
        old(tracker).wf(),
        forall|i: int| 0 <= i < old(container)@.len() ==> (#[trigger] old(container)@[i]).spec_id() == i,
        forall|v: Vec<&str>| call_requires(parser, (v,)),
        forall|v: Vec<&str>, r: Result<T, InputError>|
            call_ensures(parser, (v,), r) ==> item_outcome(r) == model(views(v@)),
    ensures
        final(tracker).wf(),
        r is Ok ==> final(tracker).rest().len() <= old(tracker).rest().len(),
        final(container)@.len() >= old(container)@.len(),
        final(container)@.subrange(0, old(container)@.len() as int) == old(container)@,
        forall|i: int| 0 <= i < final(container)@.len() ==> (#[trigger] final(container)@[i]).spec_id() == i,
        ({
            let n0 = old(container)@.len();
            let target: nat = if n0 < count {
                count as nat
            } else {
                n0
            };
            item_views(final(container)@.subrange(n0 as int, final(container)@.len() as int))
                == accepted_items(old(tracker).rest(), n0, (target - n0) as nat, model, section_name@)
        }),
        ({
            let n0 = old(container)@.len();
            let target: nat = if n0 < count {
                count as nat
            } else {
                n0
            };
            let expected = read_items(old(tracker).rest(), n0, (target - n0) as nat, model, section_name@);
            match r {
                Ok(()) => {
                    &&& final(container)@.len() == target
                    &&& expected.0 == Ok::<Seq<T::V>, Seq<char>>(
                        item_views(final(container)@.subrange(n0 as int, target as int)),
                    )
                    &&& final(tracker).rest() == expected.1
                },
                Err(e) => expected.0 == Err::<Seq<T::V>, Seq<char>>(e.message@),
            }
        }),
{
    let ghost s = tracker.rest();
    let ghost n0 = container@.len();
    let ghost target: nat = if n0 < count {
        count as nat
    } else {
        n0
    };
    let ghost old_container = container@;
    proof {
        assert(prepend_items(Seq::<T::V>::empty(), read_items(s, n0, (target - n0) as nat, model, section_name@))
            == read_items(s, n0, (target - n0) as nat, model, section_name@)) by {
            let r = read_items(s, n0, (target - n0) as nat, model, section_name@);
            if let Ok(items) = r.0 {
                assert(Seq::<T::V>::empty() + items =~= items);
            }
        }
        assert(item_views(container@.subrange(n0 as int, n0 as int)) =~= Seq::<T::V>::empty());
        assert(container@.subrange(0, n0 as int) =~= old_container);
        assert(Seq::<T::V>::empty() + accepted_items(s, n0, (target - n0) as nat, model, section_name@)
            =~= accepted_items(s, n0, (target - n0) as nat, model, section_name@));
    }
    while container.len() < count
        invariant
            tracker.wf(),
            n0 == old(container)@.len(),
            old_container == old(container)@,
            s == old(tracker).rest(),
            n0 <= container@.len() <= target,
            target == (if n0 < count { count as nat } else { n0 }),
            container@.subrange(0, n0 as int) == old_container,
            forall|i: int| 0 <= i < container@.len() ==> (#[trigger] container@[i]).spec_id() == i,
            forall|v: Vec<&str>| call_requires(parser, (v,)),
            forall|v: Vec<&str>, r: Result<T, InputError>|
                call_ensures(parser, (v,), r) ==> item_outcome(r) == model(views(v@)),
            accepted_items(s, n0, (target - n0) as nat, model, section_name@) == item_views(
                container@.subrange(n0 as int, container@.len() as int),
            ) + accepted_items(
                tracker.rest(),
                container@.len() as nat,
                (target - container@.len()) as nat,
                model,
                section_name@,
            ),
            read_items(s, n0, (target - n0) as nat, model, section_name@) == prepend_items(
                item_views(container@.subrange(n0 as int, container@.len() as int)),
                read_items(
                    tracker.rest(),
                    container@.len() as nat,
                    (target - container@.len()) as nat,
                    model,
                    section_name@,
                ),
            ),
        decreases count - container@.len(),
    {
        let ghost j = container@.len();
        let ghost cur = tracker.rest();
        let ghost done = item_views(container@.subrange(n0 as int, j as int));
        let line = tracker.read_next_valid_line();
        let parts = split_whitespace_str(line.as_str());
        let ghost pv = views(parts@);
        let result = parser(parts);
        let item = match result {
            Ok(item) => item,
            Err(e) => {
                assert(accepted_items(cur, j as nat, (target - j) as nat, model, section_name@) =~= Seq::<T::V>::empty());
                assert(done + Seq::<T::V>::empty() =~= done);
                return Err(e);
            },
        };
        let item_id = item.id();
        match check_next_id(section_name, item_id, container.len()) {
            Ok(()) => {},
            Err(e) => {
                assert(accepted_items(cur, j as nat, (target - j) as nat, model, section_name@) =~= Seq::<T::V>::empty());
                assert(done + Seq::<T::V>::empty() =~= done);
                return Err(e);
            },
        }
        let ghost iv = item@;
        let ghost before = container@;
        container.push(item);
        proof {
            let rest = next_valid_line(cur).1;
            let tail = read_items(rest, (j + 1) as nat, (target - j - 1) as nat, model, section_name@);
            assert(read_items(cur, j as nat, (target - j) as nat, model, section_name@)
                == prepend_items(seq![iv], tail));
            assert(item_views(container@.subrange(n0 as int, container@.len() as int)) =~= done.push(iv)) by {
                assert(container@.subrange(n0 as int, container@.len() as int) =~= before.subrange(
                    n0 as int,
                    j as int,
                ).push(item));
            }
            let acc_tail = accepted_items(rest, (j + 1) as nat, (target - j - 1) as nat, model, section_name@);
            assert(accepted_items(cur, j as nat, (target - j) as nat, model, section_name@) == seq![iv] + acc_tail);
            assert(done + (seq![iv] + acc_tail) =~= done.push(iv) + acc_tail);
            assert(prepend_items(done, prepend_items(seq![iv], tail)) == prepend_items(done.push(iv), tail)) by {
                if let Ok(items) = tail.0 {
                    assert(done + (seq![iv] + items) =~= done.push(iv) + items);
                }
            }
            assert(container@.subrange(0, n0 as int) =~= old_container) by {
                assert(container@.subrange(0, n0 as int) =~= before.subrange(0, n0 as int));
            }
        }
    }
    proof {
        assert(read_items(tracker.rest(), container@.len() as nat, 0, model, section_name@) == (
            Ok::<Seq<T::V>, Seq<char>>(Seq::<T::V>::empty()),
            tracker.rest(),
        ));
        let items = item_views(container@.subrange(n0 as int, container@.len() as int));
        assert(items + Seq::<T::V>::empty() =~= items);
        assert(accepted_items(tracker.rest(), container@.len() as nat, 0, model, section_name@) =~= Seq::<T::V>::empty());
        lemma_read_items_rest(s, n0, (target - n0) as nat, model, section_name@);
    }
    Ok(())
}

/// Reads references to items of `container`, one per text.
pub(crate) fn parse_refs<T: HasId>(parts: &Vec<&str>, from: usize, container_name: &str, container: &[T]) -> (r: Result<
    Vec<usize>,
    InputError,
>)
    requires
        from <= parts@.len(),
    ensures
        match r {
            Ok(v) => spec_parse_refs(
                views(parts@).subrange(from as int, parts@.len() as int),
                container_name@,
                ids_of(container@),
            ) == Ok::<Seq<usize>, Seq<char>>(v@),
            Err(e) => spec_parse_refs(
                views(parts@).subrange(from as int, parts@.len() as int),
                container_name@,
                ids_of(container@),
            ) == Err::<Seq<usize>, Seq<char>>(e.message@),
        },
{
    let ghost all = views(parts@);
    let ghost ids = ids_of(container@);
    let mut refs: Vec<usize> = Vec::new();
    let mut i = from;
    proof {
        let whole = spec_parse_refs(all.subrange(from as int, all.len() as int), container_name@, ids);
        if let Ok(v) = whole {
            assert(seq![] + v =~= v);
        }
    }
    while i < parts.len()
        invariant
            from <= i <= parts@.len(),
            all == views(parts@),
            ids == ids_of(container@),
            spec_parse_refs(all.subrange(from as int, all.len() as int), container_name@, ids) == (
            match spec_parse_refs(all.subrange(i as int, all.len() as int), container_name@, ids) {
                Ok(v) => Ok(refs@ + v),
                Err(m) => Err(m),
            }),
        decreases parts@.len() - i,
    {
        let ghost rest = all.subrange(i as int, all.len() as int);
        assert(rest[0] == parts@[i as int]@);
        assert(rest.drop_first() =~= all.subrange(i + 1, all.len() as int));
        let id = parse_integer(parts[i])?;
        validate_item_id(container_name, container, id)?;
        let ghost before = refs@;
        refs.push(id);
        proof {
            let tail = spec_parse_refs(all.subrange(i + 1, all.len() as int), container_name@, ids);
            if let Ok(v) = tail {
                assert(before + (seq![id] + v) =~= refs@ + v);
            }
        }
        i = i + 1;
    }
    proof {
        assert(all.subrange(i as int, all.len() as int) =~= Seq::<Seq<char>>::empty());
        assert(refs@ + Seq::<usize>::empty() =~= refs@);
    }
    Ok(refs)
}


/// The name of the section that a line opens.
pub fn get_section_name(line: &str) -> (r: Result<&str, InputError>)
    ensures
        r matches Ok(name) && name@ == section_name(line@),
{
    let parts = get_split_line_parts(line);
    assert(views(parts@).len() == parts@.len());
    assert(spec_split_line_parts(line@).len() >= 1);
    assert(views(parts@)[0] == parts@[0]@);
    Ok(trim_str(parts[0]))
}

/// The error for a section name that is not known.
pub fn process_default_section(section: &str) -> (r: Result<(), InputError>)
    ensures
        r matches Err(e) && e.message@ == msg_unknown_section(section@),
{
    let mut m = String::from_str("Unknown section ");
    m.append(section);
    assert(m@ =~= msg_unknown_section(section@));
    Err(InputError::new(m))
}


/// References read are positions of the listed items.
pub proof fn lemma_parse_refs_in_range(parts: Seq<Seq<char>>, container_name: Seq<char>, ids: Seq<usize>)
    ensures
        spec_parse_refs(parts, container_name, ids) matches Ok(v) ==> forall|j: int|
            0 <= j < v.len() ==> #[trigger] v[j] < ids.len(),
    decreases parts.len(),
{
    if parts.len() > 0 {
        lemma_parse_refs_in_range(parts.drop_first(), container_name, ids);
        if let Ok(v) = spec_parse_refs(parts, container_name, ids) {
            let tail = spec_parse_refs(parts.drop_first(), container_name, ids)->Ok_0;
            assert forall|j: int| 0 <= j < v.len() implies #[trigger] v[j] < ids.len() by {
                if j > 0 {
                    assert(v[j] == tail[j - 1]);
                }
            }
        }
    }
}

} // verus!
