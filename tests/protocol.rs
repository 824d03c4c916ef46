use juinit::protocol::{
    decode_request, decode_response, encode_frame, encode_request, encode_response, frame_length,
    split_frame, IpcRequest, IpcResponse, ServiceStatus,
};

fn round_trip(req: IpcRequest) -> IpcRequest {
    let bytes = encode_request(&req).expect("fits");
    decode_request(&bytes).expect("decodes")
}

#[test]
fn every_request_variant_round_trips() {
    let requests = vec![
        IpcRequest::StartService { name: "web".to_string() },
        IpcRequest::StopService { name: "db".to_string() },
        IpcRequest::RestartService { name: "cache".to_string() },
        IpcRequest::GetStatus { name: Some("web".to_string()) },
        IpcRequest::GetStatus { name: None },
        IpcRequest::ListServices,
        IpcRequest::EnableService { name: "ssh".to_string() },
        IpcRequest::DisableService { name: "ssh".to_string() },
        IpcRequest::ReloadDaemon,
    ];
    for req in requests {
        let back = round_trip(req.clone());
        assert_eq!(format!("{:?}", back), format!("{:?}", req));
    }
}

#[test]
fn request_encoding_bytes() {
    let bytes = encode_request(&IpcRequest::StartService { name: "web".to_string() }).unwrap();
    assert_eq!(bytes, vec![0, 0, 0, 0, 3, b'w', b'e', b'b']);
    assert_eq!(encode_request(&IpcRequest::ListServices).unwrap(), vec![4]);
    assert_eq!(encode_request(&IpcRequest::GetStatus { name: None }).unwrap(), vec![3, 0]);
}

#[test]
fn non_ascii_names_round_trip() {
    let req = IpcRequest::StopService { name: "naïve-服务".to_string() };
    let bytes = encode_request(&req).unwrap();
    assert_eq!(bytes.len(), 1 + 4 + "naïve-服务".len());
    match decode_request(&bytes).unwrap() {
        IpcRequest::StopService { name } => assert_eq!(name, "naïve-服务"),
        other => panic!("unexpected {:?}", other),
    }
}

#[test]
fn malformed_requests_are_rejected() {
    assert!(decode_request(&vec![]).is_none());
    assert!(decode_request(&vec![9]).is_none());
    assert!(decode_request(&vec![4, 0]).is_none());
    assert!(decode_request(&vec![0, 0, 0, 0, 5, b'a']).is_none());
    assert!(decode_request(&vec![0, 0, 0, 0, 1, b'a', b'b']).is_none());
    assert!(decode_request(&vec![0, 0, 0, 0, 2, 0xff, 0xfe]).is_none());
    assert!(decode_request(&vec![3, 2]).is_none());
}

#[test]
fn frames_wrap_and_unwrap_payloads() {
    let payload = vec![7u8, 8, 9];
    let frame = encode_frame(&payload).unwrap();
    assert_eq!(frame, vec![0, 0, 0, 3, 7, 8, 9]);
    assert_eq!(frame_length(&frame[..4].to_vec()), Some(3));
    assert_eq!(split_frame(&frame), Some(payload));
    assert_eq!(split_frame(&vec![0, 0, 0, 5, 1]), None);
    assert_eq!(frame_length(&vec![0, 1]), None);
    assert_eq!(frame_length(&vec![1, 2, 3, 4]), Some(0x0102_0304));
}

#[test]
fn responses_round_trip() {
    let responses = vec![
        IpcResponse::Success { message: "ok".to_string() },
        IpcResponse::Error { message: "no".to_string() },
        IpcResponse::Status {
            services: vec![
                ServiceStatus {
                    name: "web".to_string(),
                    state: "Running".to_string(),
                    pid: Some(4242),
                    enabled: false,
                    restart_count: 2,
                },
                ServiceStatus {
                    name: "db".to_string(),
                    state: "Stopped".to_string(),
                    pid: None,
                    enabled: true,
                    restart_count: 0,
                },
            ],
        },
        IpcResponse::Status { services: vec![] },
        IpcResponse::ServiceList { services: vec!["a".to_string(), "b".to_string()] },
    ];
    for resp in responses {
        let bytes = encode_response(&resp).unwrap();
        let back = decode_response(&bytes).expect("decodes");
        assert_eq!(format!("{:?}", back), format!("{:?}", resp));
    }
}

#[test]
fn malformed_responses_are_rejected() {
    assert!(decode_response(&vec![]).is_none());
    assert!(decode_response(&vec![2, 0, 0, 0, 1]).is_none());
    assert!(decode_response(&vec![3, 0, 0, 0, 0, 9]).is_none());
    assert!(decode_response(&vec![7]).is_none());
}
