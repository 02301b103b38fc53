use visioncortex::Color;
use visioncortex::ColorI32;
use visioncortex::ColorName;
use visioncortex::ColorStatBuilder;
use visioncortex::ColorSum;
use visioncortex::ColorType;
use visioncortex::SampleStatBuilder;
use visioncortex::SimpleStatBuilder;

#[test]
fn colours_by_name_and_palette() {
    assert_eq!(Color::color(&ColorName::Black), Color::new_rgba(0, 0, 0, 255));
    assert_eq!(Color::color(&ColorName::White), Color::new_rgba(255, 255, 255, 255));
    assert_eq!(Color::color(&ColorName::Red), Color::new(255, 0, 0));
    assert_eq!(Color::get_palette_color(0), Color::new(216, 51, 74));
    assert_eq!(Color::get_palette_color(7), Color::new(172, 146, 236));
    assert_eq!(Color::get_palette_color(11), Color::new(72, 207, 173));
    assert_eq!(Color::default(), Color::new_rgba(0, 0, 0, 0));
}

#[test]
fn hex_string_of_a_colour() {
    assert_eq!(Color::new(255, 0, 10).to_hex_string(), "#FF000A");
    assert_eq!(Color::new(0, 171, 205).to_hex_string(), "#00ABCD");
}

#[test]
fn channels_by_index() {
    let c = Color::new_rgba(1, 2, 3, 4);
    assert_eq!(c.channel(0), Some(1));
    assert_eq!(c.channel(1), Some(2));
    assert_eq!(c.channel(2), Some(3));
    assert_eq!(c.channel(3), Some(4));
    assert_eq!(c.channel(4), None);
}

#[test]
fn signed_colours() {
    let a = Color::new(10, 20, 30).to_color_i32();
    let b = ColorI32::new(&Color::new(1, 2, 3));
    assert_eq!(a.add(&b), ColorI32 { r: 11, g: 22, b: 33 });
    assert_eq!(b.diff(&a), ColorI32 { r: -9, g: -18, b: -27 });
    assert_eq!(a.to_color(), Color::new(10, 20, 30));
}

#[test]
fn colour_sums_and_averages() {
    let mut sum = ColorSum::new();
    sum.add(&Color::new_rgba(10, 0, 255, 255));
    sum.add(&Color::new_rgba(21, 1, 255, 0));
    assert_eq!(sum.counter, 2);
    assert_eq!(sum.average(), Color::new_rgba(15, 0, 255, 127));
    let mut other = ColorSum::new();
    other.add(&Color::new_rgba(2, 5, 0, 0));
    sum.merge(&other);
    assert_eq!(sum.average(), Color::new_rgba(11, 2, 170, 85));
    sum.clear();
    assert_eq!(sum.counter, 0);
    assert_eq!(sum.r, 0);
}

#[test]
fn sample_statistics() {
    let mut simple = SimpleStatBuilder::new();
    simple.add(3);
    simple.add(-4);
    assert_eq!((simple.sum, simple.sqsum, simple.count), (-1, 25, 2));
    let mut samples = SampleStatBuilder::new();
    for v in [5, 1, 5, 2] {
        samples.add(v);
    }
    assert_eq!(samples.sequence, vec![5, 1, 5, 2]);
    assert_eq!(samples.histogram.get(&5), Some(&2));
    assert_eq!(SampleStatBuilder::median(&[1, 2, 5, 5]), 3);
    assert_eq!(SampleStatBuilder::median(&[1, 2, 5]), 2);
    assert_eq!(SampleStatBuilder::median(&[-3, -2]), -2);
    assert_eq!(SampleStatBuilder::median(&[]), 0);
    assert_eq!(SampleStatBuilder::median_frequency(&[1, 2, 5, 5], &samples.histogram), 1);
    assert_eq!(SampleStatBuilder::median_frequency(&[1, 5, 5], &samples.histogram), 2);
    assert_eq!(SampleStatBuilder::median_frequency(&[], &samples.histogram), 0);
    let mut colours = ColorStatBuilder::new();
    colours.add(Color::new(1, 2, 3));
    colours.add(Color::new(3, 2, 1));
    assert_eq!((colours.r.sum, colours.g.sqsum, colours.b.count), (4, 8, 2));
}
