use ruslin_data_uniffi::PluginError;

#[test]
fn plugin_error_messages() {
    assert_eq!(PluginError::PluginDirNotExists.message(), "The plugin directory does not exist.");
    assert_eq!(PluginError::DownloadFailed.message(), "Download failed.");
    assert_eq!(PluginError::DeleteFailed.message(), "Delete Failed");
    assert_eq!(PluginError::StartFailed.message(), "Start Failed");
}
