use vusbipd_ccid::usb::{
    class_specific_descriptor, DeviceRequests, UnsupportedDeviceRequest, USB_FEATURE_REMOTE_WAKEUP,
    USB_REQUEST_CLEAR_FEATURE, USB_REQUEST_GET_CONFIGURATION, USB_REQUEST_GET_STATUS,
    USB_REQUEST_SET_FEATURE,
};

#[test]
fn class_specific_descriptor_has_expected_length() {
    assert_eq!(class_specific_descriptor().len(), 54);
}

#[test]
fn device_handler_reports_default_device_status() {
    let mut handler = DeviceRequests::new();

    let response = handler
        .handle_request(64, 0x80, USB_REQUEST_GET_STATUS, 0, 2)
        .expect("GET_STATUS must succeed");

    assert_eq!(response, vec![0x00, 0x00]);
}

#[test]
fn device_handler_tracks_remote_wakeup_feature() {
    let mut handler = DeviceRequests::new();

    handler
        .handle_request(0, 0x00, USB_REQUEST_SET_FEATURE, USB_FEATURE_REMOTE_WAKEUP, 0)
        .expect("SET_FEATURE must succeed");

    let response = handler
        .handle_request(64, 0x80, USB_REQUEST_GET_STATUS, 0, 2)
        .expect("GET_STATUS must succeed");

    assert_eq!(response, vec![0x02, 0x00]);
}

// Further scenarios.

#[test]
fn clear_feature_and_configuration() {
    let mut handler = DeviceRequests::new();
    handler.handle_request(0, 0x00, USB_REQUEST_SET_FEATURE, USB_FEATURE_REMOTE_WAKEUP, 0).unwrap();
    handler.handle_request(0, 0x00, USB_REQUEST_CLEAR_FEATURE, USB_FEATURE_REMOTE_WAKEUP, 0).unwrap();
    assert_eq!(handler.handle_request(64, 0x80, USB_REQUEST_GET_STATUS, 0, 2), Ok(vec![0x00, 0x00]));
    assert_eq!(handler.handle_request(64, 0x80, USB_REQUEST_GET_CONFIGURATION, 0, 1), Ok(vec![1]));
    assert_eq!(
        handler.handle_request(64, 0x80, 6, 0x0100, 18),
        Err(UnsupportedDeviceRequest { request_type: 0x80, request: 6, value: 0x0100 })
    );
}

#[test]
fn replies_are_truncated_to_the_shorter_limit() {
    let mut handler = DeviceRequests::new();
    assert_eq!(handler.handle_request(1, 0x80, USB_REQUEST_GET_STATUS, 0, 2), Ok(vec![0x00]));
    assert_eq!(handler.handle_request(64, 0x80, USB_REQUEST_GET_STATUS, 0, 0), Ok(vec![]));
    assert_eq!(DeviceRequests::limited_response(3, 5, vec![1, 2, 3, 4]), vec![1, 2, 3]);
}

#[test]
fn descriptor_starts_with_its_length_and_type() {
    let d = class_specific_descriptor();
    assert_eq!(d[0] as usize, d.len());
    assert_eq!(d[1], 0x21);
    assert_eq!(&d[10..14], &[0xfc, 0x0d, 0x00, 0x00]);
}
