use tgd_aap::data_engine::etl::{request_id, upload_url};
use tgd_aap::grpc_client::{alert_text, telegram_send_url};
use tgd_aap::inference_handler::InferenceHandler;

#[test]
fn request_id_joins_prefix_pid_and_time() {
    assert_eq!(request_id("etl", 4242, 1700000000123), "etl-4242-1700000000123");
    assert_eq!(request_id("", 0, 0), "-0-0");
}

#[test]
fn endpoints_and_alert_text() {
    assert_eq!(upload_url("tgd-aap/taiwan-gov-data"), "https://huggingface.co/api/datasets/tgd-aap/taiwan-gov-data/upload");
    assert_eq!(telegram_send_url("123:abc"), "https://api.telegram.org/bot123:abc/sendMessage");
    assert_eq!(alert_text("Inference complete."), "[TGD-AAP Alert] Inference complete.");
}

#[test]
fn handler_constructs() {
    let _h = InferenceHandler::new();
}
