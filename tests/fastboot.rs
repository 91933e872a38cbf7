use fastboot_protocol::client::{
    devices, parse_var_line, AltSetting, Direction, EndpointInfo, EndpointType, InterfaceInfo, NusbFastBoot,
    NusbFastBootError, NusbFastBootOpenError, TransferError,
};
use fastboot_protocol::download::{DataDownload, DownloadError};
use fastboot_protocol::protocol::{FastBootCommand, FastBootResponse, FastBootResponseParseError};

#[test]
fn command_bytes() {
    assert_eq!(FastBootCommand::GetVar("product".to_string()).to_bytes(), b"getvar:product".to_vec());
    assert_eq!(FastBootCommand::Download(0x1000).to_bytes(), b"download:00001000".to_vec());
    assert_eq!(FastBootCommand::Download(0xdeadBEEF).to_bytes(), b"download:deadbeef".to_vec());
    assert_eq!(FastBootCommand::Flash("boot".to_string()).to_bytes(), b"flash:boot".to_vec());
    assert_eq!(FastBootCommand::Erase("userdata".to_string()).to_bytes(), b"erase:userdata".to_vec());
    assert_eq!(FastBootCommand::Reboot.to_bytes(), b"reboot".to_vec());
    assert_eq!(FastBootCommand::RebootBootloader.to_bytes(), b"reboot-bootloader".to_vec());
}

#[test]
fn parse_each_reply_kind() {
    assert_eq!(FastBootResponse::from_bytes(b"INFOhello\n"), Ok(FastBootResponse::Info("hello".to_string())));
    assert_eq!(FastBootResponse::from_bytes(b"TEXTsome text \r\n"), Ok(FastBootResponse::Text("some text".to_string())));
    assert_eq!(FastBootResponse::from_bytes(b"DATA00001000"), Ok(FastBootResponse::Data(0x1000)));
    assert_eq!(FastBootResponse::from_bytes(b"DATAffffFFFF"), Ok(FastBootResponse::Data(u32::MAX)));
    assert_eq!(FastBootResponse::from_bytes(b"OKAY"), Ok(FastBootResponse::Okay(String::new())));
    assert_eq!(FastBootResponse::from_bytes(b"FAILno such partition"), Ok(FastBootResponse::Fail("no such partition".to_string())));
}

#[test]
fn parse_errors() {
    assert_eq!(FastBootResponse::from_bytes(b"OKA"), Err(FastBootResponseParseError::UnknownReply));
    assert_eq!(FastBootResponse::from_bytes(b"WHATever"), Err(FastBootResponseParseError::UnknownReply));
    assert_eq!(FastBootResponse::from_bytes(b"DATAxyz"), Err(FastBootResponseParseError::ParseDataSize));
    assert_eq!(FastBootResponse::from_bytes(b"DATA"), Err(FastBootResponseParseError::ParseDataSize));
    assert_eq!(FastBootResponse::from_bytes(b"DATA123456789"), Err(FastBootResponseParseError::ParseDataSize));
}

#[test]
fn getvar_reply_stream() {
    let replies: Vec<_> = [&b"INFOhello\n"[..], &b"INFOworld\n"[..], &b"OKAYvalue"[..]]
        .iter()
        .map(|r| FastBootResponse::from_bytes(r).map_err(NusbFastBootError::FastbootParseError))
        .collect();
    assert_eq!(NusbFastBoot::handle_responses(replies), Some(Ok("value".to_string())));
}

#[test]
fn reply_loop_outcomes() {
    let info = || Ok(FastBootResponse::Info("x".to_string()));
    assert_eq!(NusbFastBoot::handle_responses(vec![info()]), None);
    assert_eq!(
        NusbFastBoot::handle_responses(vec![info(), Ok(FastBootResponse::Fail("bad".to_string())), Ok(FastBootResponse::Okay(String::new()))]),
        Some(Err(NusbFastBootError::FastbootFailed("bad".to_string())))
    );
    assert_eq!(
        NusbFastBoot::handle_responses(vec![Ok(FastBootResponse::Data(4))]),
        Some(Err(NusbFastBootError::FastbootUnexpectedReply))
    );
    assert_eq!(
        NusbFastBoot::handle_responses(vec![Err(NusbFastBootError::FastbootParseError(FastBootResponseParseError::UnknownReply))]),
        Some(Err(NusbFastBootError::FastbootParseError(FastBootResponseParseError::UnknownReply)))
    );
    assert_eq!(
        NusbFastBoot::handle_responses(vec![info(), Err(NusbFastBootError::Transfer(TransferError::Stall)), Ok(FastBootResponse::Okay(String::new()))]),
        Some(Err(NusbFastBootError::Transfer(TransferError::Stall)))
    );
    assert_eq!(NusbFastBoot::download_step(FastBootResponse::Data(4096)), Some(Ok(4096)));
    assert_eq!(
        NusbFastBoot::download_step(FastBootResponse::Okay(String::new())),
        Some(Err(NusbFastBootError::FastbootUnexpectedReply))
    );
    assert_eq!(NusbFastBoot::download_step(FastBootResponse::Text("t".to_string())), None);
    assert_eq!(NusbFastBoot::command_step(FastBootResponse::Okay("v".to_string())), Some(Ok("v".to_string())));
}

fn iface(n: u8, class: u8, subclass: u8, protocol: u8) -> InterfaceInfo {
    InterfaceInfo { interface_number: n, class, subclass, protocol }
}

fn ep(address: u8, transfer_type: EndpointType, direction: Direction, max: usize) -> EndpointInfo {
    EndpointInfo { address, transfer_type, direction, max_packet_size: max }
}

#[test]
fn interface_discovery() {
    let ifaces = [iface(0, 0x08, 0x06, 0x50), iface(1, 0xff, 0x42, 0x03), iface(2, 0xff, 0x42, 0x03)];
    assert_eq!(NusbFastBoot::find_fastboot_interface(&ifaces), Some(1));
    assert_eq!(NusbFastBoot::find_fastboot_interface(&ifaces[..1]), None);
    assert_eq!(NusbFastBoot::find_fastboot_interface(&[iface(3, 0xff, 0x42, 0x01)]), None);
    let all = vec![ifaces[..1].to_vec(), ifaces.to_vec(), vec![], ifaces[1..2].to_vec()];
    assert_eq!(devices(&all), vec![1, 3]);
}

#[test]
fn endpoint_discovery() {
    let none = AltSetting { endpoints: vec![ep(0x81, EndpointType::Interrupt, Direction::In, 8)] };
    let two_outs = AltSetting {
        endpoints: vec![
            ep(0x01, EndpointType::Bulk, Direction::Out, 512),
            ep(0x02, EndpointType::Bulk, Direction::Out, 512),
            ep(0x82, EndpointType::Bulk, Direction::In, 512),
        ],
    };
    let good = AltSetting {
        endpoints: vec![ep(0x83, EndpointType::Bulk, Direction::In, 1024), ep(0x03, EndpointType::Bulk, Direction::Out, 512)],
    };
    let fb = NusbFastBoot::from_interface(&[none.clone(), two_outs.clone(), good]).unwrap();
    assert_eq!(fb, NusbFastBoot { ep_out: 0x03, max_out: 512, ep_in: 0x83, max_in: 1024 });
    assert_eq!(NusbFastBoot::from_interface(&[none, two_outs]), Err(NusbFastBootOpenError::MissingEndpoints));
}

#[test]
fn buffer_capacity() {
    assert_eq!(DataDownload::allocate_buffer(512), 1024 * 1024);
    assert_eq!(DataDownload::allocate_buffer(1000), 1_049_000);
}

/// Hands `data` to the download, rotating full buffers out; returns them.
fn extend(dl: &mut DataDownload, data: &[u8]) -> Result<Vec<Vec<u8>>, DownloadError> {
    dl.update_size(data.len() as u32)?;
    let mut sent = vec![];
    let mut pos = 0;
    loop {
        pos = dl.fill(data, pos);
        if pos == data.len() {
            return Ok(sent);
        }
        if dl.pending() == 3 {
            dl.completed();
        }
        sent.push(dl.rotate(Vec::new()));
    }
}

#[test]
fn download_of_one_page() {
    let mut dl = DataDownload::new(0x1000, 512);
    assert_eq!(dl.size(), 4096);
    for part in [&[1u8; 1000][..], &[2u8; 3000][..], &[3u8; 96][..]] {
        assert!(extend(&mut dl, part).unwrap().is_empty());
    }
    assert_eq!(dl.left(), 0);
    let last = dl.finish().unwrap().unwrap();
    assert_eq!(last.len(), 4096);
    assert_eq!(last.len() % 512, 0);
    assert_eq!(last[999], 1);
    assert_eq!(last[1000], 2);
    assert_eq!(last[4095], 3);
}

#[test]
fn download_overrun() {
    let mut dl = DataDownload::new(4096, 512);
    extend(&mut dl, &[0u8; 4000]).unwrap();
    assert_eq!(
        extend(&mut dl, &[0u8; 97]).unwrap_err(),
        DownloadError::IncorrectDataLength { actual: 4097, expected: 4096 }
    );
    assert_eq!(dl.left(), 96);
}

#[test]
fn download_short() {
    let mut dl = DataDownload::new(4096, 512);
    extend(&mut dl, &[0u8; 100]).unwrap();
    assert_eq!(dl.finish().unwrap_err(), DownloadError::IncorrectDataLength { actual: 100, expected: 4096 });
}

#[test]
fn download_empty_finishes_without_buffer() {
    let mut dl = DataDownload::new(0, 512);
    assert_eq!(dl.finish(), Ok(None));
}

#[test]
fn download_rotates_whole_buffers() {
    let total = 3 * 1024 * 1024 + 10;
    let mut dl = DataDownload::new(total as u32, 512);
    let data = vec![7u8; total];
    let sent = extend(&mut dl, &data).unwrap();
    assert_eq!(sent.len(), 3);
    assert!(sent.iter().all(|b| b.len() == 1024 * 1024));
    assert_eq!(dl.pending(), 3);
    assert_eq!(dl.finish().unwrap().unwrap().len(), 10);
}

#[test]
fn download_reserved_tail() {
    let mut dl = DataDownload::new(600, 512);
    let start = dl.reserve(100).unwrap();
    assert_eq!(start, 0);
    dl.tail_mut(start).copy_from_slice(&[9u8; 100]);
    assert_eq!(dl.left(), 500);
    assert_eq!(
        dl.reserve(501).unwrap_err(),
        DownloadError::IncorrectDataLength { actual: 601, expected: 600 }
    );
    let start = dl.reserve(500).unwrap();
    assert_eq!(start, 100);
    let last = dl.finish().unwrap().unwrap();
    assert_eq!(last.len(), 600);
    assert_eq!(last[0], 9);
}

#[test]
fn variable_lines() {
    assert_eq!(
        parse_var_line(&"  version-bootloader : 1.2:3  ".to_string()),
        Some(("version-bootloader : 1.2".to_string(), "3".to_string()))
    );
    assert_eq!(parse_var_line(&"product: sargo".to_string()), Some(("product".to_string(), "sargo".to_string())));
    assert_eq!(parse_var_line(&"no separator".to_string()), None);
}

#[test]
fn variable_listing() {
    let mut vars = vec![];
    assert_eq!(NusbFastBoot::all_vars_step(&mut vars, FastBootResponse::Info("a: 1".to_string())), None);
    assert_eq!(NusbFastBoot::all_vars_step(&mut vars, FastBootResponse::Info("garbage".to_string())), None);
    assert_eq!(NusbFastBoot::all_vars_step(&mut vars, FastBootResponse::Text("note".to_string())), None);
    assert_eq!(NusbFastBoot::all_vars_step(&mut vars, FastBootResponse::Info("b:2 ".to_string())), None);
    assert_eq!(NusbFastBoot::all_vars_step(&mut vars, FastBootResponse::Okay(String::new())), Some(Ok(())));
    assert_eq!(vars, vec![("a".to_string(), "1".to_string()), ("b".to_string(), "2".to_string())]);
    assert_eq!(
        NusbFastBoot::all_vars_step(&mut vars, FastBootResponse::Data(1)),
        Some(Err(NusbFastBootError::FastbootUnexpectedReply))
    );
    assert_eq!(
        NusbFastBoot::all_vars_step(&mut vars, FastBootResponse::Fail("no".to_string())),
        Some(Err(NusbFastBootError::FastbootFailed("no".to_string())))
    );
    assert_eq!(vars.len(), 2);
}

#[test]
fn download_reserve_refused_keeps_count() {
    let mut dl = DataDownload::new(4096, 512);
    assert_eq!(
        dl.reserve(10000).unwrap_err(),
        DownloadError::IncorrectDataLength { actual: 10000, expected: 4096 }
    );
    assert_eq!(dl.left(), 4096);
    let start = dl.reserve(4096).unwrap();
    assert_eq!(dl.tail_mut(start).len(), 4096);
    assert_eq!(dl.left(), 0);
    assert_eq!(dl.size(), 4096);
}
