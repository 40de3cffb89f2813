use interner::InternedItemHolder;

/// The address of the referenced value, as text.
fn address_of(r: &char) -> String {
    format!("{:p}", r)
}

#[test]
fn interned_item_holder_test() {
    let mut holder = InternedItemHolder::new(4); // size four

    // Add an item
    assert!(holder.try_push('a').is_ok());
    assert!(holder.len() == 1);
    assert!(holder.capacity() == 4);
    // Save the address of the item
    let first_item_address = address_of(holder.get(0).unwrap());

    // Add another item
    assert!(holder.try_push('b').is_ok());
    assert!(holder.len() == 2);
    assert!(holder.capacity() == 4);
    // Make sure the address of the first one didn't change
    assert_eq!(address_of(holder.get(0).unwrap()), first_item_address);
    let second_item_address = address_of(holder.get(1).unwrap());

    // Add two more items
    assert!(holder.try_push('c').is_ok());
    assert!(holder.try_push('d').is_ok());
    assert!(holder.len() == 4);
    assert!(holder.capacity() == 4);
    // Make sure the addresses didn't change
    assert_eq!(address_of(holder.get(0).unwrap()), first_item_address);
    assert_eq!(address_of(holder.get(1).unwrap()), second_item_address);

    // Try to add more items
    assert_eq!(holder.try_push('e'), Err('e'));
    assert_eq!(holder.try_push('f'), Err('f'));
    assert!(holder.len() == 4);
    assert!(holder.capacity() == 4);
    // Make sure the addresses didn't change
    assert_eq!(address_of(holder.get(0).unwrap()), first_item_address);
    assert_eq!(address_of(holder.get(1).unwrap()), second_item_address);

    // The slots at those addresses still hold their values
    assert_eq!(*holder.get(0).unwrap(), 'a');
    assert_eq!(*holder.get(1).unwrap(), 'b');
}

#[test]
fn holder_get_past_end_is_none() {
    let mut holder = InternedItemHolder::new(2);
    assert_eq!(holder.get(0), None);
    assert!(holder.try_push(7u32).is_ok());
    assert_eq!(holder.get(0), Some(&7u32));
    assert_eq!(holder.get(1), None);
}

#[test]
fn holder_of_capacity_zero_refuses_everything() {
    let mut holder: InternedItemHolder<u32> = InternedItemHolder::new(0);
    assert_eq!(holder.try_push(1), Err(1));
    assert_eq!(holder.len(), 0);
    assert_eq!(holder.capacity(), 0);
}
