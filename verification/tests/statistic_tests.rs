use visioncortex::statistic::SampleCounts;
use visioncortex::statistic::SampleStatBuilder;
use visioncortex::statistic::SimpleStatBuilder;

#[test]
fn test_stat_builder_1() {
    let mut builder = SampleStatBuilder::new();
    builder.add(1);
    assert_eq!(
        builder.build(),
        SampleCounts {
            count: 1,
            mode: 1,
            histogram_bins: 1,
            median: 1,
            median_frequency: 1,
        }
    );
    assert_eq!(builder.simple.sum, 1);
    assert_eq!(builder.simple.sqsum, 1);
}

#[test]
fn test_stat_builder_2() {
    let mut builder = SampleStatBuilder::new();
    builder.add(1);
    builder.add(2);
    builder.add(3);
    assert_eq!(
        builder.build(),
        SampleCounts {
            count: 3,
            mode: 1,
            histogram_bins: 3,
            median: 2,
            median_frequency: 1,
        }
    );
    assert_eq!(builder.simple.sum, 6);
    assert_eq!(builder.simple.sqsum, 14);
}

#[test]
fn test_stat_builder_3() {
    let mut builder = SampleStatBuilder::new();
    builder.add(1);
    builder.add(2);
    builder.add(2);
    builder.add(3);
    assert_eq!(
        builder.build(),
        SampleCounts {
            count: 4,
            mode: 2,
            histogram_bins: 3,
            median: 2,
            median_frequency: 2,
        }
    );
    assert_eq!(builder.simple.sum, 8);
    assert_eq!(builder.simple.sqsum, 18);
}

#[test]
fn building_sorts_the_samples() {
    let mut builder = SampleStatBuilder::new();
    for v in [5, -1, 3, 3, 0] {
        builder.add(v);
    }
    let counts = builder.build();
    assert_eq!(builder.sequence, vec![-1, 0, 3, 3, 5]);
    assert_eq!(counts.mode, 3);
    assert_eq!(counts.median, 3);
    assert_eq!(counts.histogram_bins, 4);
}

#[test]
fn no_samples_count_as_nothing() {
    let mut builder = SampleStatBuilder::new();
    assert_eq!(
        builder.build(),
        SampleCounts {
            count: 0,
            mode: 0,
            histogram_bins: 0,
            median: 0,
            median_frequency: 0,
        }
    );
    let mut simple = SimpleStatBuilder::new();
    simple.add(-3);
    assert_eq!((simple.sum, simple.sqsum, simple.count), (-3, 9, 1));
}

#[test]
fn the_median_of_an_even_number_of_samples_is_rounded_towards_zero() {
    assert_eq!(SampleStatBuilder::median(&[-4, -1]), -2);
    assert_eq!(SampleStatBuilder::median(&[1, 4]), 2);
}
