//! Two clients at once: one stalled connection cannot hold up another.

use ipc_rpc::session::handle_line;
use std::time::{Duration, SystemTime, UNIX_EPOCH};
use tokio::io::{AsyncBufReadExt, AsyncWriteExt, BufReader};
use tokio::net::{UnixListener, UnixStream};

#[test]
fn concurrent_connections_do_not_block_each_other() {
    let rt = tokio::runtime::Builder::new_multi_thread()
        .worker_threads(2)
        .enable_all()
        .build()
        .unwrap();
    rt.block_on(async {
        let nanos = SystemTime::now().duration_since(UNIX_EPOCH).unwrap().as_nanos();
        let path = format!("/tmp/ipc_rpc_test_{}", nanos);
        let listener = UnixListener::bind(&path).unwrap();
        tokio::spawn(async move {
            loop {
                let (stream, _) = match listener.accept().await {
                    Ok(pair) => pair,
                    Err(_) => break,
                };
                tokio::spawn(async move {
                    let (reader, mut writer) = stream.into_split();
                    let mut buf_reader = BufReader::new(reader);
                    let mut buffer: Vec<u8> = Vec::new();
                    loop {
                        buffer.clear();
                        let n = match buf_reader.read_until(b'\n', &mut buffer).await {
                            Ok(n) => n,
                            Err(_) => break,
                        };
                        if n == 0 {
                            break;
                        }
                        if let Some(frame) = handle_line(&buffer) {
                            if writer.write_all(&frame).await.is_err() {
                                break;
                            }
                        }
                    }
                });
            }
        });

        // Client A opens a connection and stalls mid-line.
        let mut a = UnixStream::connect(&path).await.unwrap();
        a.write_all(b"{\"id\":1,\"method\":\"getblockcount\"").await.unwrap();

        // Client B, on its own connection, completes promptly anyway.
        let b = UnixStream::connect(&path).await.unwrap();
        let (b_read, mut b_write) = b.into_split();
        let mut b_reader = BufReader::new(b_read);
        b_write
            .write_all(b"{\"id\":2,\"method\":\"getblockcount\",\"params\":[]}\n")
            .await
            .unwrap();
        let mut b_resp: Vec<u8> = Vec::new();
        tokio::time::timeout(Duration::from_secs(5), b_reader.read_until(b'\n', &mut b_resp))
            .await
            .expect("client B timed out behind a stalled client A")
            .unwrap();
        assert_eq!(b_resp, b"{\"id\":2,\"result\":84372,\"error\":null}\n".to_vec());

        // Client A finishes its line and still gets its own reply.
        a.write_all(b",\"params\":[]}\n").await.unwrap();
        let (a_read, _a_write) = a.into_split();
        let mut a_reader = BufReader::new(a_read);
        let mut a_resp: Vec<u8> = Vec::new();
        tokio::time::timeout(Duration::from_secs(5), a_reader.read_until(b'\n', &mut a_resp))
            .await
            .expect("client A timed out")
            .unwrap();
        assert_eq!(a_resp, b"{\"id\":1,\"result\":84372,\"error\":null}\n".to_vec());
    });
}
