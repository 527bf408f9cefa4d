use raptor::data::{get_routes, get_stops, GetStopsReturn, StopTimeRow};
use raptor::{assemble_raptor_data, raptor, Connection, Time};

const FEED: &str = "
    CREATE TABLE stops (id TEXT PRIMARY KEY, name TEXT);
    CREATE TABLE stop_times (
        trip_id TEXT NOT NULL,
        arrival_time_seconds INTEGER,
        departure_time_seconds INTEGER,
        stop_id TEXT
    );
    INSERT INTO stops VALUES ('1808', 'Town Hall'), ('1810', 'Market'), ('1811', 'Harbour');
    INSERT INTO stop_times VALUES
        ('early', 39600, 39600, '1808'),
        ('early', 40200, 40260, '1810'),
        ('early', 40800, 40800, '1811'),
        ('noon', 43500, 43500, '1808'),
        ('noon', 44100, 44160, '1810'),
        ('noon', 44700, 44700, '1811');
";

#[test]
fn how_fast() {
    let connection = rusqlite::Connection::open_in_memory().unwrap();
    connection.execute_batch(FEED).unwrap();

    let mut statement = connection.prepare("SELECT id FROM stops;").unwrap();
    let stop_ids: Vec<String> = statement
        .query_map([], |row| row.get::<_, String>("id"))
        .unwrap()
        .map(|id| id.unwrap())
        .collect();
    let GetStopsReturn { transfers, stops, index_by_stop_id } =
        get_stops(stop_ids, Vec::new()).unwrap();

    let mut statement = connection
        .prepare(
            "SELECT
                trip_id,
                stop_id,
                arrival_time_seconds,
                departure_time_seconds
            FROM stop_times
            ORDER BY trip_id, departure_time_seconds",
        )
        .unwrap();
    let rows: Vec<StopTimeRow> = statement
        .query_map([], |row| {
            Ok(StopTimeRow {
                trip_id: row.get("trip_id")?,
                stop_id: row.get("stop_id")?,
                arrival_seconds: row.get::<_, i64>("arrival_time_seconds")?.unsigned_abs(),
                departure_seconds: row.get::<_, i64>("departure_time_seconds")?.unsigned_abs(),
            })
        })
        .unwrap()
        .map(|row| row.unwrap())
        .collect();
    let step_2_result = get_routes(rows, &index_by_stop_id).unwrap();

    let (routes_data, stops_data, trip_ids) = assemble_raptor_data(step_2_result, stops, transfers);
    assert_eq!(trip_ids, vec!["early".to_string(), "noon".to_string()]);

    let dream_source_stop_id = "1808";
    let dream_target_stop_id = "1811";
    let source_index = index_by_stop_id.get(&dream_source_stop_id.to_string()).unwrap();
    let target_index = index_by_stop_id.get(&dream_target_stop_id.to_string()).unwrap();
    let departure = Time::from(12 * 60 * 60);

    let results = raptor(source_index, target_index, &departure, &routes_data, &stops_data);
    assert_eq!(results.len(), 1);
    assert_eq!(
        results[0].get(&target_index),
        Some(&Connection::Connection {
            route: 0,
            trip_number: 1,
            boarded_at_stop: source_index,
            exited_at_stop: target_index
        })
    );

    let mut statement = connection.prepare("SELECT name FROM stops WHERE id = :id").unwrap();

    let mut round = 1;
    for result in results {
        println!("Round {round} visited...");
        for (stop_index, _) in result {
            let stop_id = &stops_data.stops[stop_index].id;
            let parameters: &[(&str, &dyn rusqlite::ToSql)] = &[(":id", stop_id)];
            let stop_name =
                statement.query_row(parameters, |row| row.get::<_, String>("name")).unwrap();

            println!("{stop_name} ");
        }
        println!();

        round += 1;
    }
}
