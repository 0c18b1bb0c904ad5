use rustdb::record_array::{
    delete_record, get_free_space, get_num_entries, get_record, init_array, insert_record,
    ENTRY_START_FIELD_OFFS, INDEX_OFFS,
};
use rustdb::util::get_u16;
use rand::rngs::SmallRng;
use rand::{RngExt, SeedableRng};


fn sanity_check_record_array(page: &[u8]) {
    let mut sorted_rec_offs: Vec<usize> = Vec::new();

    // Walk through the entries, put offss into a list.
    let num_entries = get_num_entries(page);
    let header_first_offs = get_u16(page, ENTRY_START_FIELD_OFFS) as usize;
    if num_entries == 0 {
        // Ensure first offs in header is correct
        assert_eq!(page.len(), header_first_offs, "First offset field is incorrect");
        return;
    }

    for i in 0..num_entries {
        let rec_offs = get_u16(page, INDEX_OFFS + i * 2) as usize;
        assert!(rec_offs < page.len(), "Record offset out of range");
        sorted_rec_offs.push(rec_offs);
    }

    // The entries don't have to be in order in the page, but put them
    // in order for our test.
    sorted_rec_offs.sort();

    // Ensure first offs in header is correct
    assert_eq!(sorted_rec_offs[0], header_first_offs, "First record offset is incorrect");

    // Now ensure the entry are packed end-to-end, the lengths are in
    // the page.
    let mut last_entry_end = header_first_offs;
    for rec_offs in sorted_rec_offs {
        assert_eq!(rec_offs, last_entry_end, "Entries are not packed"); // ensure non-overlapping
        last_entry_end = rec_offs + get_u16(page, rec_offs) as usize;
        assert!(last_entry_end <= page.len(), "Entry length out of bounds"); // Ensure it doesn't spill off page
    }

    assert_eq!(last_entry_end, page.len(), "Gap at end of records");
}

// Validate the sanity_check routine
#[test]
#[should_panic = "First offset field is incorrect"]
fn record_array_test_sanity_check_bad_offs() {
    let mut page: [u8; 4096] = [0; 4096];
    init_array(&mut page);

    page[ENTRY_START_FIELD_OFFS] += 1; // Adjust start of data field

    sanity_check_record_array(&page);
}

// Validate the sanity_check routine
#[test]
#[should_panic = "Record offset out of range"]
fn record_array_test_sanity_check_offset_out_of_range() {
    let mut page: [u8; 4096] = [0; 4096];
    init_array(&mut page);

    insert_record(&mut page, 0, "aaaaa".as_bytes());
    insert_record(&mut page, 1, "bbbbb".as_bytes());
    page[INDEX_OFFS + 3] = 17; // Set the high byte of the offset past the page

    sanity_check_record_array(&page);
}

// Validate the sanity_check routine
#[test]
#[should_panic = "First record offset is incorrect"]
fn record_array_test_sanity_incorrect_record_offset() {
    let mut page: [u8; 4096] = [0; 4096];
    init_array(&mut page);

    insert_record(&mut page, 0, "a".as_bytes());
    insert_record(&mut page, 1, "z".as_bytes());

    page[ENTRY_START_FIELD_OFFS] += 1; // Adjust start of data field

    sanity_check_record_array(&page);
}

// Validate the sanity_check routine
#[test]
#[should_panic = "Entries are not packed"]
fn record_array_test_sanity_check_overlapping_entry() {
    let mut page: [u8; 4096] = [0; 4096];
    init_array(&mut page);

    insert_record(&mut page, 0, "a".as_bytes());
    insert_record(&mut page, 1, "z".as_bytes());

    let rec1_offs = get_u16(&page, INDEX_OFFS + 2) as usize; // second entry
    page[rec1_offs] += 1; // Increase the length by one byte

    sanity_check_record_array(&page);
}

#[test]
fn record_array_test_insert_after() {
    let mut page: [u8; 4096] = [0; 4096];
    init_array(&mut page);

    let record1 = "aaaa".as_bytes();
    insert_record(&mut page, 0, &record1);

    let record2 = "bbbbb".as_bytes();
    insert_record(&mut page, 1, &record2);

    assert_eq!(record1, get_record(&page, 0));
    assert_eq!(record2, get_record(&page, 1));

    sanity_check_record_array(&page);
}

#[test]
fn record_array_test_insert_before() {
    let mut page: [u8; 4096] = [0; 4096];
    init_array(&mut page);

    let record1 = "aaaa".as_bytes();
    insert_record(&mut page, 0, &record1);

    let record2 = "bbbbb".as_bytes();
    insert_record(&mut page, 0, &record2);

    assert_eq!(record2, get_record(&page, 0));
    assert_eq!(record1, get_record(&page, 1));

    sanity_check_record_array(&page);
}

#[test]
fn record_array_test_insert_mid() {
    let mut page: [u8; 4096] = [0; 4096];
    init_array(&mut page);

    let record0 = "aaaa".as_bytes();
    insert_record(&mut page, 0, &record0);

    let record1 = "bbbbb".as_bytes();
    insert_record(&mut page, 0, &record1);

    let record2 = "ccc".as_bytes();
    insert_record(&mut page, 1, &record2);

    assert_eq!(record1, get_record(&page, 0));
    assert_eq!(record2, get_record(&page, 1));
    assert_eq!(record0, get_record(&page, 2));

    sanity_check_record_array(&page);
}

#[test]
fn record_array_test_free_space() {
    let mut page: [u8; 4096] = [0; 4096];
    init_array(&mut page);

    let record1 = "aaaa".as_bytes();
    let init_free_space = get_free_space(&page);
    insert_record(&mut page, 0, &record1);
    assert_eq!(get_free_space(&page), init_free_space - record1.len() - 4);

    let record2 = "abcdefghijklmnopqrstuvwxyz".as_bytes();
    let init_free_space = get_free_space(&page);
    insert_record(&mut page, 1, &record2);
    assert_eq!(get_free_space(&page), init_free_space - record2.len() - 4);

    sanity_check_record_array(&page);
}

#[test]
fn record_array_test_delete_first() {
    // note entries are out of order
    let mut page: [u8; 4096] = [0; 4096];
    init_array(&mut page);
    insert_record(&mut page, 0, "apple".as_bytes());
    insert_record(&mut page, 0, "aardvark".as_bytes());
    insert_record(&mut page, 2, "banana".as_bytes());
    insert_record(&mut page, 3, "zebra".as_bytes());

    // Remove first entry (aardvark)
    delete_record(&mut page, 0);
    assert_eq!(get_num_entries(&page), 3);
    sanity_check_record_array(&page);

    assert_eq!(get_record(&page, 0), "apple".as_bytes());
    assert_eq!(get_record(&page, 1), "banana".as_bytes());
    assert_eq!(get_record(&page, 2), "zebra".as_bytes());
}

#[test]
fn record_array_test_delete_middle() {
    // note entries are out of order
    let mut page: [u8; 4096] = [0; 4096];
    init_array(&mut page);
    insert_record(&mut page, 0, "apple".as_bytes());
    insert_record(&mut page, 0, "aardvark".as_bytes());
    insert_record(&mut page, 2, "banana".as_bytes());
    insert_record(&mut page, 3, "zebra".as_bytes());

    // Remove from middle (apple)
    delete_record(&mut page, 1);
    assert_eq!(get_num_entries(&page), 3);
    sanity_check_record_array(&page);

    assert_eq!(get_record(&page, 0), "aardvark".as_bytes());
    assert_eq!(get_record(&page, 1), "banana".as_bytes());
    assert_eq!(get_record(&page, 2), "zebra".as_bytes());
}

#[test]
fn record_array_test_delete_last() {
    // Remove last entry (zebra)
    // note entries are out of order
    let mut page: [u8; 4096] = [0; 4096];
    init_array(&mut page);
    insert_record(&mut page, 0, "apple".as_bytes());
    insert_record(&mut page, 0, "aardvark".as_bytes());
    insert_record(&mut page, 2, "banana".as_bytes());
    insert_record(&mut page, 3, "zebra".as_bytes());

    // Remove last entry (zebra)
    delete_record(&mut page, 3);
    assert_eq!(get_num_entries(&page), 3);
    sanity_check_record_array(&page);

    assert_eq!(get_record(&page, 0), "aardvark".as_bytes());
    assert_eq!(get_record(&page, 1), "apple".as_bytes());
    assert_eq!(get_record(&page, 2), "banana".as_bytes());
}

#[test]
fn record_array_test_remove_all() {
    let mut page: [u8; 4096] = [0; 4096];
    init_array(&mut page);
    let capacity = get_free_space(&page);

    insert_record(&mut page, 0, "apple".as_bytes());
    insert_record(&mut page, 1, "aardvark".as_bytes());

    delete_record(&mut page, 0);
    delete_record(&mut page, 0);
    assert_eq!(get_num_entries(&page), 0);
    sanity_check_record_array(&page);

    assert_eq!(capacity, get_free_space(&page));
}

fn random_value(rng: &mut impl RngExt) -> Vec<u8> {
    let len = rng.random_range(1..256);
    (0..len).map(|_| rng.random()).collect()
}

#[test]
fn record_array_test_record_array_stress() {
    let seed: u64 = 0x12345;
    let mut rng = SmallRng::seed_from_u64(seed);
    let mut oracle: Vec<Vec<u8>> = Vec::new();
    let mut page: [u8; 4096] = [0; 4096];
    let mut space_available: usize = 4000; // Rounded down a bit

    init_array(&mut page);
    for rep in 0..500 {
        if rng.random::<f64>() > 0.5 || rep < 20 {
            // Insert entry
            let record = random_value(&mut rng);
            let space_needed = record.len() + 4;
            let slot = rng.random_range(0..oracle.len() + 1);
            if space_needed <= space_available {
                insert_record(&mut page, slot, &record);
                oracle.insert(slot, record.clone());
                space_available -= space_needed;
            }
        } else if oracle.len() > 0 {
            // Delete entry
            let slot = rng.random_range(0..oracle.len());
            delete_record(&mut page, slot);
            space_available += oracle[slot].len() + 4;
            oracle.remove(slot);
        }

        // Validate
        sanity_check_record_array(&page);
        for i in 0..oracle.len() {
            assert_eq!(get_record(&page, i), &oracle[i]);
        }
    }
}
