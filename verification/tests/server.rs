use rotation_renderer::server::{fit_resolution, grouped_bytes, PullReqeustSendPackage};

#[test]
fn fit_resolution_rounds_down_to_multiples_of_64() {
    assert_eq!(fit_resolution((1000, 130)), (960, 128));
    assert_eq!(fit_resolution((64, 63)), (64, 0));
    assert_eq!(fit_resolution((0, 1920)), (0, 1920));
}

#[test]
fn fit_resolution_wraps_at_the_u16_limit() {
    assert_eq!(fit_resolution((65601, 0)), (64, 0));
    assert_eq!(fit_resolution((u64::MAX, 65536)), (65472, 0));
}

#[test]
fn grouped_bytes_takes_four_bytes_per_entry() {
    let output: Vec<u8> = (0..20).collect();
    assert_eq!(grouped_bytes(&vec![1, 0, 2], &output), (0..12).collect::<Vec<u8>>());
    assert_eq!(grouped_bytes(&vec![], &output), Vec::<u8>::new());
    assert_eq!(grouped_bytes(&vec![5], &output), output);
}

#[test]
fn send_package_holds_its_fields() {
    let package = PullReqeustSendPackage {
        title: "Server Respons".to_string(),
        description: "results calculated with given data".to_string(),
        resolution: fit_resolution((130, 70)),
        color_list: vec![1, 2, 3, 4],
        error: "No Error detected".to_string(),
    };
    assert_eq!(package.resolution, (128, 64));
    assert_eq!(package.color_list.len(), 4);
    assert_eq!(package.title, "Server Respons");
}
