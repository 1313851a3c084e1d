use wallflower::weather::{Client, Forecast, WindDirection};

#[test]
fn weather_client_constructs() {
    let _client = Client::new();
    let _forecast = Forecast;
    assert_eq!(WindDirection::NNE, WindDirection::NNE);
    assert_ne!(WindDirection::N, WindDirection::S);
}
