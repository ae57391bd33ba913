use sonicfusion::ieee::number::Single;
use sonicfusion::output::waveform::{
    amplitude_scale, bucket_x, sample_y, summarize_bucket, waveform_svg, DRAWABLE_WIDTH, HEIGHT,
    WIDTH,
};
use sonicfusion::{Error, RenderConfig};

fn single(value: f32) -> Single {
    Single { bits: value.to_bits() }
}

fn singles(values: &[f32]) -> Vec<Single> {
    values.iter().map(|value| single(*value)).collect()
}

fn float(sample: Single) -> f32 {
    f32::from_bits(sample.bits)
}

fn test_config(frame_count: u64) -> RenderConfig {
    RenderConfig::builder()
        .frame_count(frame_count)
        .build()
        .expect("test configuration should be valid")
}

fn element_attribute<'a>(svg: &'a str, element_id: &str, attribute: &str) -> &'a str {
    let id_marker = format!("id=\"{element_id}\"");
    let id_offset = svg
        .find(&id_marker)
        .unwrap_or_else(|| panic!("element {element_id:?} missing from SVG"));
    let tag_start = svg[..id_offset].rfind('<').expect("element should have a tag start");
    let tag_end =
        id_offset + svg[id_offset..].find('>').expect("element should have a tag end");
    let tag = &svg[tag_start..=tag_end];
    let attribute_marker = format!("{attribute}=\"");
    let value_start = tag
        .find(&attribute_marker)
        .unwrap_or_else(|| panic!("attribute {attribute:?} missing from {tag}"))
        + attribute_marker.len();
    let value_end = value_start
        + tag[value_start..].find('"').expect("attribute should have a closing quote");

    &tag[value_start..value_end]
}

fn assert_invalid_render_contains(error: &Error, expected: &str) {
    match error {
        Error::InvalidRender(message) => {
            assert!(message.contains(expected), "expected {message:?} to contain {expected:?}")
        }
        other => panic!("expected InvalidRender, got {}", other.to_string()),
    }
}

#[test]
fn svg_contains_the_fixed_viewport_and_waveform_elements() {
    let config = test_config(5);
    let samples = singles(&[0.0, 1.0, 0.0, -1.0, 0.0]);

    let svg = waveform_svg(&samples, &config).expect("SVG should be drawn");

    assert!(svg.starts_with("<?xml version=\"1.0\" encoding=\"UTF-8\"?>"));
    assert!(svg.contains("<svg"));
    assert!(svg.contains(&format!("width=\"{WIDTH}\"")));
    assert!(svg.contains(&format!("height=\"{HEIGHT}\"")));
    assert!(svg.contains(&format!("viewBox=\"0 0 {WIDTH} {HEIGHT}\"")));
    assert!(svg.contains("id=\"zero-baseline\""));
    assert_eq!(element_attribute(&svg, "waveform", "data-frame-count"), "5");
    assert_eq!(element_attribute(&svg, "waveform", "data-bucket-count"), "5");
    assert!(!element_attribute(&svg, "waveform-envelope", "d").is_empty());
    assert!(!element_attribute(&svg, "waveform-mean", "points").is_empty());
}

#[test]
fn identical_inputs_produce_byte_identical_svgs() {
    let config = test_config(5);
    let samples = singles(&[0.0, 1.0, 0.0, -1.0, 0.0]);

    let first = waveform_svg(&samples, &config).expect("first SVG should be drawn");
    let second = waveform_svg(&samples, &config).expect("second SVG should be drawn");

    assert_eq!(first, second);
}

#[test]
fn large_renders_are_bucketed_to_the_drawable_width_without_losing_peak_scale() {
    let frame_count = DRAWABLE_WIDTH * 3 + 17;
    let config = test_config(frame_count as u64);
    let mut samples = vec![single(0.0); frame_count];
    samples[frame_count / 2] = single(1.0);

    let svg = waveform_svg(&samples, &config).expect("SVG should be drawn");

    assert_eq!(
        element_attribute(&svg, "waveform", "data-frame-count"),
        frame_count.to_string()
    );
    assert_eq!(
        element_attribute(&svg, "waveform", "data-bucket-count"),
        DRAWABLE_WIDTH.to_string()
    );
    assert_eq!(element_attribute(&svg, "waveform", "data-amplitude-scale"), "1.000000");
    assert!(svg.contains(",16.000 V160.000"));
}

#[test]
fn full_range_samples_produce_only_finite_coordinates() {
    let config = test_config(5);
    let samples = singles(&[0.0, 1.0, -1.0, 0.5, 0.0]);

    let svg = waveform_svg(&samples, &config).expect("SVG should be drawn");
    let lowercase_svg = svg.to_ascii_lowercase();

    assert_eq!(element_attribute(&svg, "waveform", "data-amplitude-scale"), "1.000000");
    assert!(!lowercase_svg.contains("nan"), "{svg}");
    assert!(!lowercase_svg.contains("inf"), "{svg}");
}

#[test]
fn invalid_samples_fail_before_creating_the_destination() {
    let config = test_config(3);

    let wrong_length_error = waveform_svg(&singles(&[0.0, 1.0]), &config)
        .expect_err("wrong sample count should be rejected");
    assert_invalid_render_contains(&wrong_length_error, "expected 3, got 2");

    let non_finite_error = waveform_svg(&singles(&[0.0, f32::NAN, 1.0]), &config)
        .expect_err("non-finite sample should be rejected");
    assert_invalid_render_contains(&non_finite_error, "frame 1");

    let error = waveform_svg(&singles(&[0.0, 1.01, 0.0]), &config)
        .expect_err("out-of-range sample should be rejected");
    assert_invalid_render_contains(&error, "out-of-range sample at frame 1");
    assert_eq!(
        error.to_string(),
        "invalid render: cannot write out-of-range sample at frame 1: 1.01"
    );
}

#[test]
fn fewer_samples_make_a_smaller_image() {
    let long_config = test_config(100);
    let short_config = test_config(2);

    let long = waveform_svg(&vec![single(0.25); 100], &long_config).expect("long SVG");
    let svg = waveform_svg(&singles(&[1.0, -1.0]), &short_config).expect("short SVG");

    assert!(svg.len() < long.len());
    assert_eq!(element_attribute(&svg, "waveform", "data-frame-count"), "2");
    assert_eq!(element_attribute(&svg, "waveform", "data-bucket-count"), "2");
}

#[test]
fn the_whole_image_is_fixed_to_the_letter() {
    let svg = waveform_svg(&singles(&[0.5, -0.25]), &test_config(2)).unwrap();
    assert_eq!(
        svg,
        "<?xml version=\"1.0\" encoding=\"UTF-8\"?>\n\
         <svg xmlns=\"http://www.w3.org/2000/svg\" width=\"1200\" height=\"320\" viewBox=\"0 0 1200 320\">\n\
         <rect width=\"1200\" height=\"320\" fill=\"#07111f\"/>\n\
         <g id=\"waveform\" data-frame-count=\"2\" data-bucket-count=\"2\" data-amplitude-scale=\"1.000000\">\n\
         <line id=\"zero-baseline\" x1=\"16\" y1=\"160.000\" x2=\"1184\" y2=\"160.000\" stroke=\"#334155\" stroke-width=\"1\"/>\n\
         <path id=\"waveform-envelope\" d=\"M16.000,88.000 V88.000 M1184.000,196.000 V196.000\" fill=\"none\" stroke=\"#38bdf8\" stroke-width=\"1\" stroke-linecap=\"round\"/>\n\
         <polyline id=\"waveform-mean\" points=\"16.000,88.000 1184.000,196.000\" fill=\"none\" stroke=\"#e0f2fe\" stroke-width=\"1\" stroke-linejoin=\"round\"/>\n\
         </g>\n\
         </svg>\n"
    );
    let svg = waveform_svg(&singles(&[0.0]), &test_config(1)).unwrap();
    assert!(svg.contains(" d=\"M600.000,160.000 V160.000\""));
}

#[test]
fn coordinates_agree_with_the_machine() {
    for index in 0..1168usize {
        let x = 16 as f32 + index as f32 * 1168 as f32 / 1167 as f32;
        assert_eq!(float(bucket_x(index, 1168)), x);
    }
    assert_eq!(float(bucket_x(0, 1)), 600.0);
    for step in -1000..=1000 {
        let sample = step as f32 / 1000.0;
        let y = 160.0 - sample / 1.0 * 144.0;
        assert_eq!(float(sample_y(single(sample), single(1.0))), y);
        assert!((16.0..=304.0).contains(&y));
    }
}

#[test]
fn buckets_go_from_the_left_edge_to_the_right_one() {
    for count in 2..=1168usize {
        assert_eq!(float(bucket_x(0, count)), 16.0);
        for index in 1..count {
            assert!(float(bucket_x(index - 1, count)) < float(bucket_x(index, count)));
        }
        assert_eq!(float(bucket_x(count - 1, count)), 1184.0);
    }
}

#[test]
fn summaries_agree_with_the_machine() {
    let values: Vec<f32> = (0..500).map(|i| ((i * 37) % 101) as f32 / 101.0 - 0.5).collect();
    let samples = singles(&values);
    for (from, to) in [(0, 1), (3, 10), (0, 500), (499, 500)] {
        let summary = summarize_bucket(&samples, from, to);
        let part = &values[from..to];
        let mut sum = 0.0_f64;
        for value in part {
            sum += f64::from(*value);
        }
        let minimum = part.iter().copied().fold(f32::INFINITY, f32::min);
        let maximum = part.iter().copied().fold(f32::NEG_INFINITY, f32::max);
        assert_eq!(float(summary.minimum), minimum);
        assert_eq!(float(summary.maximum), maximum);
        assert_eq!(float(summary.mean), (sum / part.len() as f64) as f32);
    }
    assert_eq!(float(amplitude_scale(&samples)), 1.0);
    assert_eq!(float(amplitude_scale(&singles(&[0.5, -3.5, 2.0]))), 3.5);
}
