use rattler_solve::cli::Opt;

#[test]
fn channels_default_to_conda_forge() {
    let opt = Opt { channels: None, specs: vec!["python".to_string()] };
    assert_eq!(opt.channel_names(), vec!["conda-forge".to_string()]);
}

#[test]
fn given_channels_are_kept_in_order() {
    let opt = Opt {
        channels: Some(vec!["bioconda".to_string(), "conda-forge".to_string()]),
        specs: vec!["python".to_string()],
    };
    assert_eq!(opt.channel_names(), vec!["bioconda".to_string(), "conda-forge".to_string()]);
}
