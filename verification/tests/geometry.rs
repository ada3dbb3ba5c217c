//! The shape of a GPT and the usable range that follows from it.

use partitions::gpt_write::geometry::MAX_LBA;
use partitions::gpt_write::GptGeometry;
use partitions::Error;

/// A 64 MiB disk, in sectors.
const SECTORS: u64 = 64 * 1024 * 1024 / 512;

fn canonical() -> GptGeometry {
    GptGeometry::canonical()
}

#[test]
fn the_canonical_geometry_is_the_34_and_33_this_crate_had_pinned() {
    let g = canonical();
    assert_eq!(g.array_sectors(), 32);
    assert_eq!(g.backup_reserve_sectors(), 33);
    assert_eq!(g.usable_range(SECTORS).unwrap(), (34, SECTORS - 34));
}

#[test]
fn a_256_entry_array_moves_both_ends_of_the_usable_range() {
    let g = GptGeometry {
        num_entries: 256,
        ..canonical()
    };
    assert_eq!(g.array_sectors(), 64);
    assert_eq!(g.usable_range(SECTORS).unwrap(), (66, SECTORS - 66));
}

#[test]
fn an_array_shorter_than_a_sector_still_occupies_one() {
    let g = GptGeometry {
        num_entries: 3,
        ..canonical()
    };
    assert_eq!(g.array_sectors(), 1);
    assert_eq!(g.usable_range(SECTORS).unwrap(), (3, SECTORS - 3));
}

#[test]
fn a_declared_range_narrower_than_the_minimum_is_kept() {
    let g = GptGeometry {
        declared_usable: Some((2048, SECTORS - 2048)),
        ..canonical()
    };
    assert_eq!(g.usable_range(SECTORS).unwrap(), (2048, SECTORS - 2048));
}

#[test]
fn the_addressable_lba_bound_is_checked_at_both_ends() {
    let at_the_limit = GptGeometry {
        entry_lba: MAX_LBA - 33,
        ..canonical()
    };
    at_the_limit
        .check_shape()
        .expect("the last LBA with a byte offset is addressable");

    let past_it = GptGeometry {
        entry_lba: MAX_LBA + 1,
        ..canonical()
    };
    match past_it.check_shape() {
        Err(Error::Invalid(m)) => assert!(
            m.contains("byte offset does not fit"),
            "refused, but not for the offset: {m}"
        ),
        other => panic!("an LBA past the addressable range gave {other:?}"),
    }
}

#[test]
fn the_arrays_end_is_bounded_at_both_ends() {
    let canonical_array = canonical().array_sectors();

    let ends_exactly_at_the_limit = GptGeometry {
        entry_lba: MAX_LBA - canonical_array,
        ..canonical()
    };
    assert_eq!(
        ends_exactly_at_the_limit.entry_lba + canonical_array,
        MAX_LBA,
        "the fixture does not end where this test says it does"
    );
    ends_exactly_at_the_limit
        .check_shape()
        .expect("an array ending at the last addressable LBA is addressable");

    let one_past = GptGeometry {
        entry_lba: MAX_LBA - canonical_array + 1,
        ..canonical()
    };
    match one_past.check_shape() {
        Err(Error::Invalid(m)) => assert!(
            m.contains("ends past the last addressable LBA"),
            "refused, but not for the array's end: {m}"
        ),
        other => panic!("an array ending one past the range gave {other:?}"),
    }
}

#[test]
fn the_geometry_that_wrapped_is_refused_rather_than_wrapping() {
    let g = GptGeometry {
        entry_lba: u64::MAX,
        ..canonical()
    };
    assert!(g.usable_range(131_072).is_err());
    assert!(
        g.check_shape().is_err(),
        "the refusal is in the shape check"
    );
}

#[test]
fn a_geometry_that_cannot_describe_a_table_is_refused() {
    let cases: &[(GptGeometry, &str)] = &[
        (
            GptGeometry {
                num_entries: 0,
                ..canonical()
            },
            "no entry slots",
        ),
        (
            GptGeometry {
                entry_size: 64,
                ..canonical()
            },
            "below 128 bytes",
        ),
        (
            GptGeometry {
                entry_size: 132,
                ..canonical()
            },
            "multiple of 8",
        ),
        (
            GptGeometry {
                entry_lba: 1,
                ..canonical()
            },
            "before the header",
        ),
        (
            GptGeometry {
                declared_usable: Some((33, SECTORS - 34)),
                ..canonical()
            },
            "inside its own entry array",
        ),
        (
            GptGeometry {
                declared_usable: Some((34, SECTORS - 33)),
                ..canonical()
            },
            "the backup copy needs",
        ),
        (
            GptGeometry {
                declared_usable: Some((100, 99)),
                ..canonical()
            },
            "runs backwards",
        ),
    ];
    for (geometry, expected) in cases {
        match geometry.usable_range(SECTORS) {
            Err(Error::Invalid(m)) => assert!(
                m.contains(expected),
                "refused for the wrong reason: wanted {expected:?}, got {m:?}"
            ),
            other => panic!("{geometry:?} gave {other:?}, wanted {expected:?}"),
        }
    }
}

#[test]
fn a_disk_too_small_for_the_geometry_is_refused_as_too_small() {
    let g = canonical();
    assert!(g.usable_range(68).is_ok());
    match g.usable_range(67) {
        Err(Error::DeviceTooSmall) => {}
        other => panic!("a disk one sector too small gave {other:?}"),
    }
}

#[test]
fn an_entry_size_that_is_not_a_doubled_128_is_refused() {
    for (size, ok) in [(128u32, true), (256, true), (384, false), (512, true), (4096, true)] {
        let g = GptGeometry {
            entry_size: size,
            ..canonical()
        };
        assert_eq!(g.check_shape().is_ok(), ok, "{size}");
    }
}
